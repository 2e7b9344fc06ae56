use crate::symbol::{Symbol, SymbolDomain, SymbolSet, SymbolType};
use vstd::prelude::*;
use vstd::std_specs::cmp::PartialEqSpecImpl;

verus! {

/// A production `head -> body`.
#[derive(Debug, Hash)]
pub struct GrammarRule {
    head: Symbol,
    body: Vec<Symbol>,
}

impl View for GrammarRule {
    type V = (Symbol, Seq<Symbol>);

    closed spec fn view(&self) -> (Symbol, Seq<Symbol>) {
        (self.head, self.body@)
    }
}

impl GrammarRule {
    /// The rule `head -> body`.
    pub fn new(head: Symbol, body: Vec<Symbol>) -> (r: GrammarRule)
        ensures
            r@ == (head, body@),
    {
        GrammarRule { head, body }
    }
}

impl Clone for GrammarRule {
    fn clone(&self) -> (r: GrammarRule)
        ensures
            r@ == self@,
    {
        let body = self.body.clone();
        proof {
            assert(body@ =~= self.body@);
        }
        GrammarRule { head: self.head, body }
    }
}

fn same_symbols(a: &Vec<Symbol>, b: &Vec<Symbol>) -> (r: bool)
    ensures
        r == (a@ == b@),
{
    if a.len() != b.len() {
        return false;
    }
    let mut i: usize = 0;
    while i < a.len()
        invariant
            a@.len() == b@.len(),
            i <= a@.len(),
            forall|k: int| 0 <= k < i ==> a@[k] == b@[k],
        decreases a@.len() - i,
    {
        if a[i] != b[i] {
            return false;
        }
        i = i + 1;
    }
    proof {
        assert(a@ =~= b@);
    }
    true
}

impl PartialEq for GrammarRule {
    fn eq(&self, other: &Self) -> (r: bool) {
        self.head == other.head && same_symbols(&self.body, &other.body)
    }
}

impl Eq for GrammarRule {}

impl PartialEqSpecImpl for GrammarRule {
    open spec fn obeys_eq_spec() -> bool {
        true
    }

    open spec fn eq_spec(&self, other: &Self) -> bool {
        self@ == other@
    }
}

/// A rule as a mathematical value: its head and its body.
pub type RuleView = (Symbol, Seq<Symbol>);

/// Holds of `s` alone.
pub open spec fn eq_symbol(s: Symbol) -> spec_fn(Symbol) -> bool {
    |x: Symbol| x == s
}

/// The positions, in order, of the rules with head `h`.
pub open spec fn ids_with_head(rules: Seq<RuleView>, h: Symbol) -> Seq<usize>
    decreases rules.len(),
{
    if rules.len() == 0 {
        Seq::empty()
    } else {
        let prev = ids_with_head(rules.drop_last(), h);
        if rules.last().0 == h {
            prev.push((rules.len() - 1) as usize)
        } else {
            prev
        }
    }
}

/// The positions, in order, of the rules whose body holds `s`, once per occurrence.
pub open spec fn ids_in_body(rules: Seq<RuleView>, s: Symbol) -> Seq<usize>
    decreases rules.len(),
{
    if rules.len() == 0 {
        Seq::empty()
    } else {
        let id = (rules.len() - 1) as usize;
        ids_in_body(rules.drop_last(), s) + rules.last().1.filter(eq_symbol(s)).map_values(
            |x: Symbol| id,
        )
    }
}

/// How many routines the declarations `d` bring.
pub open spec fn routine_total(d: Seq<(RuleView, nat)>) -> nat
    decreases d.len(),
{
    if d.len() == 0 {
        0
    } else {
        routine_total(d.drop_last()) + d.last().1
    }
}

/// The positions in the routine list, in declaration order, of the routines declared with rule `r`;
/// each declaration is a rule and the number of routines that come with it.
pub open spec fn routine_ids_of(d: Seq<(RuleView, nat)>, r: RuleView) -> Seq<usize>
    decreases d.len(),
{
    if d.len() == 0 {
        Seq::empty()
    } else {
        let prev = routine_ids_of(d.drop_last(), r);
        if d.last().0 == r {
            let base = routine_total(d.drop_last());
            prev + Seq::new(d.last().1, |j: int| (base + j) as usize)
        } else {
            prev
        }
    }
}

/// The entries of `ids` that are positions of `items`, each replaced by the item there.
pub open spec fn resolve<A>(ids: Seq<usize>, items: Seq<A>) -> Seq<A> {
    let n = items.len();
    ids.filter(|i: usize| i < n).map_values(|i: usize| items[i as int])
}

/// `a` lists, under distinct keys, exactly the nonempty values of `f`.
pub open spec fn indexes<K>(a: Seq<(K, Seq<usize>)>, f: spec_fn(K) -> Seq<usize>) -> bool {
    &&& forall|i: int, j: int| 0 <= i < a.len() && 0 <= j < a.len() && i != j ==> a[i].0 != a[j].0
    &&& forall|i: int| 0 <= i < a.len() ==> #[trigger] a[i].1 == f(a[i].0)
    &&& forall|k: K| (#[trigger] f(k)).len() > 0 ==> exists|i: int| 0 <= i < a.len() && #[trigger] a[i].0 == k
}

/// A symbol index as a sequence of keys and id lists.
pub open spec fn index_view(a: Seq<(Symbol, Vec<usize>)>) -> Seq<(Symbol, Seq<usize>)> {
    a.map_values(|e: (Symbol, Vec<usize>)| (e.0, e.1@))
}

/// The routine index as a sequence of rules and id lists.
pub open spec fn routine_index_view(a: Seq<(GrammarRule, Vec<usize>)>) -> Seq<(RuleView, Seq<usize>)> {
    a.map_values(|e: (GrammarRule, Vec<usize>)| (e.0@, e.1@))
}

/// The value `a` lists under `k`, or nothing.
pub open spec fn lookup<K>(a: Seq<(K, Seq<usize>)>, k: K) -> Seq<usize> {
    if exists|i: int| 0 <= i < a.len() && a[i].0 == k {
        a[choose|i: int| 0 <= i < a.len() && a[i].0 == k].1
    } else {
        Seq::empty()
    }
}

/// An index gives under each key the value of the function it lists.
pub proof fn lemma_lookup<K>(a: Seq<(K, Seq<usize>)>, f: spec_fn(K) -> Seq<usize>, k: K)
    requires
        indexes(a, f),
    ensures
        lookup(a, k) == f(k),
{
    if exists|i: int| 0 <= i < a.len() && a[i].0 == k {
        let i = choose|i: int| 0 <= i < a.len() && a[i].0 == k;
        assert(a[i].1 == f(a[i].0));
    } else {
        if f(k).len() > 0 {
            let i = choose|i: int| 0 <= i < a.len() && #[trigger] a[i].0 == k;
            assert(false);
        }
        assert(f(k) =~= Seq::<usize>::empty());
    }
}

/// `f` with `id` appended to its value at `key`.
pub open spec fn with_id(f: spec_fn(Symbol) -> Seq<usize>, key: Symbol, id: usize) -> spec_fn(
    Symbol,
) -> Seq<usize> {
    |k: Symbol|
        if k == key {
            f(k).push(id)
        } else {
            f(k)
        }
}

fn find_symbol(a: &Vec<(Symbol, Vec<usize>)>, k: Symbol) -> (r: Option<usize>)
    ensures
        match r {
            Some(i) => i < a@.len() && a@[i as int].0 == k,
            None => forall|i: int| 0 <= i < a@.len() ==> a@[i].0 != k,
        },
{
    let mut i: usize = 0;
    while i < a.len()
        invariant
            i <= a@.len(),
            forall|j: int| 0 <= j < i ==> a@[j].0 != k,
        decreases a@.len() - i,
    {
        if a[i].0 == k {
            return Some(i);
        }
        i = i + 1;
    }
    None
}

/// Appends `id` to the ids `map` lists under `key`, adding the key when it is missing.
fn add_index(
    map: &mut Vec<(Symbol, Vec<usize>)>,
    key: Symbol,
    id: usize,
    Ghost(f): Ghost<spec_fn(Symbol) -> Seq<usize>>,
)
    requires
        indexes(index_view(old(map)@), f),
    ensures
        indexes(index_view(final(map)@), with_id(f, key, id)),
{
    let ghost g = with_id(f, key, id);
    let ghost a0 = index_view(map@);
    match find_symbol(map, key) {
        Some(i) => {
            map[i].1.push(id);
            proof {
                let a1 = index_view(map@);
                assert(a0[i as int].1 == f(key));
                assert(a1.len() == a0.len());
                assert forall|j: int| 0 <= j < a1.len() implies a1[j].0 == a0[j].0 by {}
                assert(a1[i as int].1 == a0[i as int].1.push(id));
                assert forall|j: int| 0 <= j < a1.len() implies #[trigger] a1[j].1 == g(a1[j].0) by {
                    if j != i {
                        assert(a1[j] == a0[j]);
                        assert(a0[j].1 == f(a0[j].0));
                        assert(a0[j].0 != a0[i as int].0);
                    }
                }
                assert forall|k: Symbol| (#[trigger] g(k)).len() > 0 implies exists|j: int|
                    0 <= j < a1.len() && #[trigger] a1[j].0 == k by {
                    if k == key {
                        assert(a1[i as int].0 == k);
                    } else {
                        let j = choose|j: int| 0 <= j < a0.len() && #[trigger] a0[j].0 == k;
                        assert(a1[j].0 == k);
                    }
                }
                assert(indexes(a1, g));
            }
        },
        None => {
            let mut v: Vec<usize> = Vec::new();
            v.push(id);
            map.push((key, v));
            proof {
                let a1 = index_view(map@);
                assert(a1.len() == a0.len() + 1);
                assert forall|j: int| 0 <= j < a0.len() implies a1[j] == a0[j] by {}
                assert(a1[a0.len() as int] == (key, seq![id]));
                assert(f(key).len() == 0) by {
                    if f(key).len() > 0 {
                        let j = choose|j: int| 0 <= j < a0.len() && #[trigger] a0[j].0 == key;
                        assert(map@[j].0 == key);
                    }
                }
                assert(f(key).push(id) =~= seq![id]);
                assert forall|j: int| 0 <= j < a1.len() implies #[trigger] a1[j].1 == g(a1[j].0) by {
                    if j < a0.len() {
                        assert(a1[j] == a0[j]);
                        assert(a0[j].1 == f(a0[j].0));
                        assert(a0[j].0 != key);
                    }
                }
                assert forall|k: Symbol| (#[trigger] g(k)).len() > 0 implies exists|j: int|
                    0 <= j < a1.len() && #[trigger] a1[j].0 == k by {
                    if k == key {
                        assert(a1[a0.len() as int].0 == k);
                    } else {
                        let j = choose|j: int| 0 <= j < a0.len() && #[trigger] a0[j].0 == k;
                        assert(a1[j].0 == k);
                    }
                }
            }
        },
    }
}

/// A context-free grammar with its FIRST and FOLLOW sets; `R` is the type of the action
/// routines attached to its rules.
pub struct Grammar<R> {
    start_symbol: Symbol,
    rules: Vec<GrammarRule>,
    action_routines: Vec<R>,
    rules_to_routines_map: Vec<(GrammarRule, Vec<usize>)>,
    rules_by_head: Vec<(Symbol, Vec<usize>)>,
    rules_by_body: Vec<(Symbol, Vec<usize>)>,
    symbol_domain_size: usize,
    first_sets: Vec<(Symbol, SymbolSet)>,
    follow_sets: Vec<(Symbol, SymbolSet)>,
    declarations: Ghost<Seq<(RuleView, nat)>>,
}

fn reversed<A>(v: Vec<A>) -> (r: Vec<A>)
    ensures
        r@ == v@.reverse(),
{
    let mut v = v;
    let ghost orig = v@;
    let mut r: Vec<A> = Vec::new();
    while v.len() > 0
        invariant
            orig.len() == v@.len() + r@.len(),
            v@ == orig.subrange(0, v@.len() as int),
            r@ == orig.subrange(v@.len() as int, orig.len() as int).reverse(),
        decreases v@.len(),
    {
        let x = v.pop().unwrap();
        r.push(x);
        proof {
            assert(r@ =~= orig.subrange(v@.len() as int, orig.len() as int).reverse());
            assert(v@ =~= orig.subrange(0, v@.len() as int));
        }
    }
    proof {
        assert(orig.subrange(0, orig.len() as int) =~= orig);
    }
    r
}

fn find_rule(a: &Vec<(GrammarRule, Vec<usize>)>, k: &GrammarRule) -> (r: Option<usize>)
    ensures
        match r {
            Some(i) => i < a@.len() && a@[i as int].0@ == k@,
            None => forall|i: int| 0 <= i < a@.len() ==> a@[i].0@ != k@,
        },
{
    let mut i: usize = 0;
    while i < a.len()
        invariant
            i <= a@.len(),
            forall|j: int| 0 <= j < i ==> a@[j].0@ != k@,
        decreases a@.len() - i,
    {
        if a[i].0 == *k {
            return Some(i);
        }
        i = i + 1;
    }
    None
}

/// The routine ids of each rule under the declarations `d`.
pub open spec fn routine_ids_fn(d: Seq<(RuleView, nat)>) -> spec_fn(RuleView) -> Seq<usize> {
    |r: RuleView| routine_ids_of(d, r)
}

impl<R> Grammar<R> {
    /// Files `routines` after the routines already held, and records their positions in the
    /// routine list under `rule`, so that a lookup by position finds each of them.
    fn add_routine(&mut self, rule: GrammarRule, routines: Vec<R>)
        requires
            indexes(
                routine_index_view(old(self).rules_to_routines_map@),
                routine_ids_fn(old(self).declarations@),
            ),
            old(self).action_routines@.len() == routine_total(old(self).declarations@),
        ensures
            final(self).declarations@ == old(self).declarations@.push((rule@, routines@.len())),
            indexes(
                routine_index_view(final(self).rules_to_routines_map@),
                routine_ids_fn(final(self).declarations@),
            ),
            final(self).action_routines@ == old(self).action_routines@ + routines@,
            final(self).start_symbol == old(self).start_symbol,
            final(self).rules == old(self).rules,
            final(self).rules_by_head == old(self).rules_by_head,
            final(self).rules_by_body == old(self).rules_by_body,
            final(self).symbol_domain_size == old(self).symbol_domain_size,
            final(self).first_sets == old(self).first_sets,
            final(self).follow_sets == old(self).follow_sets,
    {
        let ghost d = self.declarations@;
        let ghost a0 = routine_index_view(self.rules_to_routines_map@);
        let ghost base = self.action_routines@.len();
        let ghost old_routines = self.action_routines@;
        let i = match find_rule(&self.rules_to_routines_map, &rule) {
            Some(i) => i,
            None => {
                proof {
                    assert(routine_ids_fn(d)(rule@) == routine_ids_of(d, rule@));
                    if routine_ids_fn(d)(rule@).len() > 0 {
                        let j = choose|j: int| 0 <= j < a0.len() && #[trigger] a0[j].0 == rule@;
                        assert(self.rules_to_routines_map@[j].0@ == rule@);
                    }
                    assert(routine_ids_of(d, rule@) =~= Seq::<usize>::empty());
                }
                let empty: Vec<usize> = Vec::with_capacity(routines.len());
                self.rules_to_routines_map.push((rule.clone(), empty));
                proof {
                    let a1 = routine_index_view(self.rules_to_routines_map@);
                    assert forall|j: int| 0 <= j < a0.len() implies a1[j] == a0[j] by {}
                }
                self.rules_to_routines_map.len() - 1
            },
        };
        let ghost a1 = routine_index_view(self.rules_to_routines_map@);
        proof {
            assert(a1[i as int].0 == rule@);
            assert(a1[i as int].1 == routine_ids_of(d, rule@));
            assert forall|j: int| 0 <= j < a1.len() && j != i implies #[trigger] a1[j].1 == routine_ids_of(
                d,
                a1[j].0,
            ) && a1[j].0 != rule@ by {
                if j < a0.len() {
                    assert(a1[j] == a0[j]);
                }
            }
        }
        let n = routines.len();
        let mut rev = reversed(routines);
        let ghost orig = rev@.reverse();
        let mut k: usize = 0;
        while k < n
            invariant
                n == orig.len(),
                k <= n,
                rev@ == orig.subrange(k as int, n as int).reverse(),
                i < self.rules_to_routines_map@.len(),
                self.rules_to_routines_map@.len() == a1.len(),
                forall|j: int|
                    0 <= j < a1.len() && j != i ==> #[trigger] self.rules_to_routines_map@[j].0@ == a1[j].0
                        && self.rules_to_routines_map@[j].1@ == a1[j].1,
                self.rules_to_routines_map@[i as int].0@ == rule@,
                self.rules_to_routines_map@[i as int].1@ == routine_ids_of(d, rule@) + Seq::new(
                    k as nat,
                    |t: int| (base + t) as usize,
                ),
                self.action_routines@ == old_routines + orig.take(k as int),
                old_routines.len() == base,
                self.declarations == old(self).declarations,
                self.start_symbol == old(self).start_symbol,
                self.rules == old(self).rules,
                self.rules_by_head == old(self).rules_by_head,
                self.rules_by_body == old(self).rules_by_body,
                self.symbol_domain_size == old(self).symbol_domain_size,
                self.first_sets == old(self).first_sets,
                self.follow_sets == old(self).follow_sets,
            decreases n - k,
        {
            proof {
                assert(rev@.len() > 0);
            }
            let routine = rev.pop().unwrap();
            proof {
                assert(routine == orig[k as int]);
                assert(rev@ =~= orig.subrange(k + 1, n as int).reverse());
            }
            self.action_routines.push(routine);
            let routine_id = self.action_routines.len() - 1;
            let ghost map_before = self.rules_to_routines_map@;
            self.rules_to_routines_map[i].1.push(routine_id);
            proof {
                assert forall|j: int| 0 <= j < a1.len() && j != i implies #[trigger] self.rules_to_routines_map@[j]
                    == map_before[j] by {}
                assert(self.action_routines@ =~= old_routines + orig.take(k + 1));
                assert(self.rules_to_routines_map@[i as int].1@ =~= routine_ids_of(d, rule@) + Seq::new(
                    (k + 1) as nat,
                    |t: int| (base + t) as usize,
                ));
            }
            k = k + 1;
        }
        self.declarations = Ghost(d.push((rule@, n as nat)));
        proof {
            let d2 = d.push((rule@, n as nat));
            assert(d2.drop_last() =~= d);
            assert(routine_total(d2) == base + n);
            assert(orig.take(n as int) =~= orig);
            let a2 = routine_index_view(self.rules_to_routines_map@);
            assert(a2[i as int].1 =~= routine_ids_of(d2, rule@));
            assert forall|j: int| 0 <= j < a2.len() implies #[trigger] a2[j].1 == routine_ids_of(d2, a2[j].0) by {
                if j != i {
                    assert(a2[j].0 == a1[j].0);
                    assert(a1[j].0 != rule@);
                    assert(routine_ids_of(d2, a2[j].0) == routine_ids_of(d, a2[j].0));
                }
            }
            assert forall|x: RuleView| (#[trigger] routine_ids_fn(d2)(x)).len() > 0 implies exists|j: int|
                0 <= j < a2.len() && #[trigger] a2[j].0 == x by {
                if x == rule@ {
                    assert(a2[i as int].0 == x);
                } else {
                    assert(routine_ids_of(d2, x) == routine_ids_of(d, x));
                    assert(routine_ids_fn(d)(x) == routine_ids_of(d, x));
                    let j = choose|j: int| 0 <= j < a0.len() && #[trigger] a0[j].0 == x;
                    assert(a1[j] == a0[j]);
                    assert(a2[j].0 == x);
                }
            }
            assert forall|p: int, q: int| 0 <= p < a2.len() && 0 <= q < a2.len() && p != q implies a2[p].0
                != a2[q].0 by {
                if p < a0.len() && q < a0.len() {
                    assert(a1[p] == a0[p]);
                    assert(a1[q] == a0[q]);
                }
            }
        }
    }
}

/// The rules as mathematical values.
pub open spec fn rule_views(rules: Seq<GrammarRule>) -> Seq<RuleView> {
    rules.map_values(|r: GrammarRule| r@)
}

/// The rule ids listed under each head symbol.
pub open spec fn heads_fn(rv: Seq<RuleView>) -> spec_fn(Symbol) -> Seq<usize> {
    |h: Symbol| ids_with_head(rv, h)
}

/// The rule ids listed under each body symbol.
pub open spec fn bodies_fn(rv: Seq<RuleView>) -> spec_fn(Symbol) -> Seq<usize> {
    |s: Symbol| ids_in_body(rv, s)
}

spec fn body_prefix_fn(rv0: Seq<RuleView>, body: Seq<Symbol>, j: int, id: usize) -> spec_fn(
    Symbol,
) -> Seq<usize> {
    |s: Symbol| ids_in_body(rv0, s) + body.take(j).filter(eq_symbol(s)).map_values(|x: Symbol| id)
}

impl<R> Grammar<R> {
    /// Records rule number `rule_id`, the last one held, under its head and under each symbol
    /// of its body.
    fn update_rule_by_symbol_maps(&mut self, rule: GrammarRule, rule_id: usize)
        requires
            rule_views(old(self).rules@).len() > 0,
            rule_views(old(self).rules@).last() == rule@,
            rule_id + 1 == old(self).rules@.len(),
            indexes(
                index_view(old(self).rules_by_head@),
                heads_fn(rule_views(old(self).rules@).drop_last()),
            ),
            indexes(
                index_view(old(self).rules_by_body@),
                bodies_fn(rule_views(old(self).rules@).drop_last()),
            ),
        ensures
            indexes(index_view(final(self).rules_by_head@), heads_fn(rule_views(final(self).rules@))),
            indexes(index_view(final(self).rules_by_body@), bodies_fn(rule_views(final(self).rules@))),
            final(self).start_symbol == old(self).start_symbol,
            final(self).rules == old(self).rules,
            final(self).action_routines == old(self).action_routines,
            final(self).rules_to_routines_map == old(self).rules_to_routines_map,
            final(self).symbol_domain_size == old(self).symbol_domain_size,
            final(self).first_sets == old(self).first_sets,
            final(self).follow_sets == old(self).follow_sets,
            final(self).declarations == old(self).declarations,
    {
        let ghost rv = rule_views(self.rules@);
        let ghost rv0 = rv.drop_last();
        add_index(&mut self.rules_by_head, rule.head, rule_id, Ghost(heads_fn(rv0)));
        proof {
            assert(heads_fn(rv) =~= with_id(heads_fn(rv0), rule.head, rule_id));
        }
        let ghost body = rule.body@;
        proof {
            assert(body_prefix_fn(rv0, body, 0, rule_id) =~= bodies_fn(rv0)) by {
                assert forall|s: Symbol| #[trigger] body_prefix_fn(rv0, body, 0, rule_id)(s) == bodies_fn(rv0)(s) by {
                    assert(body.take(0).filter(eq_symbol(s)) =~= Seq::<Symbol>::empty()) by {
                        reveal(Seq::filter);
                    }
                    assert(ids_in_body(rv0, s) + Seq::<Symbol>::empty().map_values(|x: Symbol| rule_id)
                        =~= ids_in_body(rv0, s));
                }
            }
        }
        let mut j: usize = 0;
        while j < rule.body.len()
            invariant
                j <= body.len(),
                body == rule.body@,
                rv == rule_views(self.rules@),
                rv0 == rv.drop_last(),
                rv.len() > 0,
                rv.last() == rule@,
                rule_id + 1 == rv.len(),
                indexes(index_view(self.rules_by_head@), heads_fn(rv)),
                indexes(index_view(self.rules_by_body@), body_prefix_fn(rv0, body, j as int, rule_id)),
                self.start_symbol == old(self).start_symbol,
                self.rules == old(self).rules,
                self.action_routines == old(self).action_routines,
                self.rules_to_routines_map == old(self).rules_to_routines_map,
                self.symbol_domain_size == old(self).symbol_domain_size,
                self.first_sets == old(self).first_sets,
                self.follow_sets == old(self).follow_sets,
                self.declarations == old(self).declarations,
            decreases body.len() - j,
        {
            let body_symbol = rule.body[j];
            add_index(
                &mut self.rules_by_body,
                body_symbol,
                rule_id,
                Ghost(body_prefix_fn(rv0, body, j as int, rule_id)),
            );
            proof {
                assert(body_prefix_fn(rv0, body, j + 1, rule_id) =~= with_id(
                    body_prefix_fn(rv0, body, j as int, rule_id),
                    body_symbol,
                    rule_id,
                )) by {
                    assert forall|s: Symbol| #[trigger] body_prefix_fn(rv0, body, j + 1, rule_id)(s) == with_id(
                        body_prefix_fn(rv0, body, j as int, rule_id),
                        body_symbol,
                        rule_id,
                    )(s) by {
                        assert(body.take(j + 1) =~= body.take(j as int).push(body_symbol));
                        body.take(j as int).lemma_filter_push(body_symbol, eq_symbol(s));
                        let pre = body.take(j as int).filter(eq_symbol(s));
                        assert(pre.push(body_symbol).map_values(|x: Symbol| rule_id) =~= pre.map_values(
                            |x: Symbol| rule_id,
                        ).push(rule_id));
                        assert(ids_in_body(rv0, s) + pre.map_values(|x: Symbol| rule_id).push(rule_id)
                            =~= (ids_in_body(rv0, s) + pre.map_values(|x: Symbol| rule_id)).push(rule_id));
                    }
                }
            }
            j = j + 1;
        }
        proof {
            assert(body_prefix_fn(rv0, body, j as int, rule_id) =~= bodies_fn(rv)) by {
                assert(body.take(j as int) =~= body);
                assert forall|s: Symbol| #[trigger] body_prefix_fn(rv0, body, j as int, rule_id)(s) == bodies_fn(rv)(s) by {
                    assert(rv.last().1 == body);
                }
            }
        }
    }
}

/// The symbol `s` is one of `keys`, found by its id.
pub open spec fn known(keys: Seq<Symbol>, s: Symbol) -> bool {
    (s.id as int) < keys.len() && keys[s.id as int] == s
}

/// The rules `rule_by_head` gives, under rule list `rules`, for the symbol with id `x`.
pub open spec fn rules_for(keys: Seq<Symbol>, rules: Seq<RuleView>, x: nat) -> Seq<RuleView> {
    head_rules(rules, keys[x as int])
}

/// Rule `r` names only known symbols, and the nonterminals of its body are in `c`.
pub open spec fn rule_ok(keys: Seq<Symbol>, c: Set<nat>, r: RuleView) -> bool {
    &&& known(keys, r.0)
    &&& forall|i: int|
        0 <= i < r.1.len() ==> {
            &&& known(keys, #[trigger] r.1[i])
            &&& r.1[i].symbol_type == SymbolType::Nonterminal ==> c.contains(r.1[i].id as nat)
        }
}

/// `c` holds the start symbol when it is a nonterminal, and is a set of nonterminals with ids
/// below 256 that is closed under the walks: the rules `rule_by_head` gives for a member name
/// only known symbols, and the nonterminals in their bodies are members.
pub open spec fn walk_closed(keys: Seq<Symbol>, rules: Seq<RuleView>, start: Symbol, c: Set<nat>) -> bool {
    &&& start.symbol_type == SymbolType::Nonterminal ==> c.contains(start.id as nat)
    &&& set_closed(keys, rules, c)
}

/// `c` is a set of nonterminals with ids below 256 that is closed under the walks: the rules
/// `rule_by_head` gives for a member name only known symbols, and the nonterminals in their
/// bodies are members.
pub open spec fn set_closed(keys: Seq<Symbol>, rules: Seq<RuleView>, c: Set<nat>) -> bool {
    forall|x: nat|
        #[trigger] c.contains(x) ==> {
            &&& x < 256
            &&& x < keys.len()
            &&& keys[x as int].symbol_type == SymbolType::Nonterminal
            &&& forall|m: int|
                0 <= m < rules_for(keys, rules, x).len() ==> rule_ok(keys, c, #[trigger] rules_for(keys, rules, x)[m])
        }
}

/// The walks from `start` through the rules `rule_by_head` gives meet only known symbols and
/// nonterminals with ids below 256.
pub open spec fn walkable(keys: Seq<Symbol>, rules: Seq<RuleView>, start: Symbol) -> bool {
    exists|c: Set<nat>| walk_closed(keys, rules, start, c)
}

/// Every symbol that is not a nonterminal has an id below 256.
pub open spec fn small_terminals(keys: Seq<Symbol>) -> bool {
    forall|i: int| 0 <= i < keys.len() && (#[trigger] keys[i]).symbol_type != SymbolType::Nonterminal ==> i < 256
}

/// Holds of the numbers below `n`.
pub open spec fn lt_pred(n: nat) -> spec_fn(usize) -> bool {
    |i: usize| i < n
}

proof fn lemma_resolve_push<A>(ids: Seq<usize>, items: Seq<A>, i: usize)
    ensures
        resolve(ids.push(i), items) == if i < items.len() {
            resolve(ids, items).push(items[i as int])
        } else {
            resolve(ids, items)
        },
{
    let n = items.len();
    ids.lemma_filter_push(i, lt_pred(n));
    assert(ids.filter(|i: usize| i < n) == ids.filter(lt_pred(n)));
    assert(ids.push(i).filter(|i: usize| i < n) == ids.push(i).filter(lt_pred(n)));
    if i < n {
        assert(ids.filter(lt_pred(n)).push(i).map_values(|i: usize| items[i as int]) =~= ids.filter(
            lt_pred(n),
        ).map_values(|i: usize| items[i as int]).push(items[i as int]));
    }
}

/// The rules of `rules` with head `h`, in order.
pub open spec fn head_rules(rules: Seq<RuleView>, h: Symbol) -> Seq<RuleView> {
    rules.filter(has_head(h))
}

/// Holds of the rules with head `h`.
pub open spec fn has_head(h: Symbol) -> spec_fn(RuleView) -> bool {
    |r: RuleView| r.0 == h
}

/// Each rule of `rules`, in order, once per occurrence of `s` in its body.
pub open spec fn body_rules(rules: Seq<RuleView>, s: Symbol) -> Seq<RuleView>
    decreases rules.len(),
{
    if rules.len() == 0 {
        Seq::empty()
    } else {
        let last = rules.last();
        body_rules(rules.drop_last(), s) + last.1.filter(eq_symbol(s)).map_values(|x: Symbol| last)
    }
}

/// Every id of `ids` is a position of `items`.
pub open spec fn all_below(ids: Seq<usize>, n: nat) -> bool {
    forall|j: int| 0 <= j < ids.len() ==> (#[trigger] ids[j] as nat) < n
}

proof fn lemma_resolve_all<A>(ids: Seq<usize>, items: Seq<A>)
    requires
        all_below(ids, items.len()),
    ensures
        resolve(ids, items) == ids.map_values(|i: usize| items[i as int]),
    decreases ids.len(),
{
    if ids.len() == 0 {
        assert(resolve(ids, items) =~= Seq::<A>::empty()) by {
            reveal(Seq::filter);
        }
        assert(ids.map_values(|i: usize| items[i as int]) =~= Seq::<A>::empty());
    } else {
        let p = ids.drop_last();
        assert(all_below(p, items.len())) by {
            assert forall|j: int| 0 <= j < p.len() implies (#[trigger] p[j] as nat) < items.len() by {
                assert(p[j] == ids[j]);
            }
        }
        lemma_resolve_all(p, items);
        lemma_resolve_push(p, items, ids.last());
        assert(p.push(ids.last()) =~= ids);
        assert(ids[ids.len() - 1] < items.len());
        assert(ids.map_values(|i: usize| items[i as int]) =~= p.map_values(|i: usize| items[i as int]).push(
            items[ids.last() as int],
        ));
    }
}

proof fn lemma_map_extend<A>(ids: Seq<usize>, p: Seq<A>, x: A)
    requires
        all_below(ids, p.len()),
    ensures
        ids.map_values(|i: usize| p.push(x)[i as int]) == ids.map_values(|i: usize| p[i as int]),
{
    assert forall|j: int| 0 <= j < ids.len() implies p.push(x)[#[trigger] ids[j] as int] == p[ids[j] as int] by {
        assert((ids[j] as nat) < p.len());
    }
    assert(ids.map_values(|i: usize| p.push(x)[i as int]) =~= ids.map_values(|i: usize| p[i as int]));
}

/// The head index lists, for each head, exactly the positions of the rules with that head.
pub proof fn lemma_head_rules(rules: Seq<RuleView>, h: Symbol)
    requires
        rules.len() <= usize::MAX,
    ensures
        all_below(ids_with_head(rules, h), rules.len()),
        resolve(ids_with_head(rules, h), rules) == head_rules(rules, h),
    decreases rules.len(),
{
    let ids = ids_with_head(rules, h);
    if rules.len() == 0 {
        assert(ids =~= Seq::<usize>::empty());
        lemma_resolve_all(ids, rules);
        assert(head_rules(rules, h) =~= Seq::<RuleView>::empty()) by {
            reveal(Seq::filter);
        }
        assert(ids.map_values(|i: usize| rules[i as int]) =~= Seq::<RuleView>::empty());
    } else {
        let p = rules.drop_last();
        let x = rules.last();
        let n1 = (rules.len() - 1) as usize;
        let pids = ids_with_head(p, h);
        lemma_head_rules(p, h);
        assert(p.push(x) =~= rules);
        p.lemma_filter_push(x, has_head(h));
        assert(all_below(ids, rules.len()));
        lemma_resolve_all(ids, rules);
        lemma_resolve_all(pids, p);
        lemma_map_extend(pids, p, x);
        if x.0 == h {
            assert(ids == pids.push(n1));
            let a = ids.map_values(|i: usize| rules[i as int]);
            let b = pids.map_values(|i: usize| rules[i as int]).push(x);
            assert(a.len() == b.len());
            assert forall|j: int| 0 <= j < a.len() implies a[j] == b[j] by {
                if j < pids.len() {
                    assert(ids[j] == pids[j]);
                } else {
                    assert(ids[j] == n1);
                }
            }
            assert(a =~= b);
        } else {
            assert(ids == pids);
        }
    }
}

/// A rule appears among the rules listed for `s` exactly when it is one of `rules` and `s`
/// occurs in its body.
pub proof fn lemma_body_rules_has(rules: Seq<RuleView>, s: Symbol)
    ensures
        forall|rv: RuleView| #[trigger] body_rules(rules, s).contains(rv) <==> rules.contains(rv) && rv.1.contains(s),
    decreases rules.len(),
{
    if rules.len() > 0 {
        let p = rules.drop_last();
        let x = rules.last();
        lemma_body_rules_has(p, s);
        let f = x.1.filter(eq_symbol(s));
        let tail = f.map_values(|y: Symbol| x);
        crate::symbol::lemma_filter_has_all(x.1, eq_symbol(s));
        assert forall|rv: RuleView| #[trigger] body_rules(rules, s).contains(rv) <==> rules.contains(rv) && rv.1.contains(
            s,
        ) by {
            let b = body_rules(rules, s);
            assert(b == body_rules(p, s) + tail);
            if b.contains(rv) {
                let k = choose|k: int| 0 <= k < b.len() && b[k] == rv;
                if k < body_rules(p, s).len() {
                    assert(body_rules(p, s)[k] == rv);
                    assert(body_rules(p, s).contains(rv));
                    let j = choose|j: int| 0 <= j < p.len() && p[j] == rv;
                    assert(rules[j] == rv);
                } else {
                    assert(tail[k - body_rules(p, s).len()] == x);
                    assert(rv == x);
                    assert(f.contains(f[k - body_rules(p, s).len()]));
                    assert(rules[rules.len() - 1] == x);
                }
            }
            if rules.contains(rv) && rv.1.contains(s) {
                let j = choose|j: int| 0 <= j < rules.len() && rules[j] == rv;
                if j < p.len() {
                    assert(p[j] == rv);
                    assert(body_rules(p, s).contains(rv));
                    let k = choose|k: int| 0 <= k < body_rules(p, s).len() && body_rules(p, s)[k] == rv;
                    assert(b[k] == rv);
                } else {
                    assert(rv == x);
                    assert(f.contains(s));
                    assert(f.len() > 0);
                    assert(tail[0] == x);
                    assert(b[body_rules(p, s).len() as int] == rv);
                }
            }
        }
    }
}

/// The body index lists, for each symbol, the position of each rule once per occurrence of the
/// symbol in its body.
pub proof fn lemma_body_rules(rules: Seq<RuleView>, s: Symbol)
    requires
        rules.len() <= usize::MAX,
    ensures
        all_below(ids_in_body(rules, s), rules.len()),
        resolve(ids_in_body(rules, s), rules) == body_rules(rules, s),
    decreases rules.len(),
{
    let ids = ids_in_body(rules, s);
    if rules.len() == 0 {
        assert(ids =~= Seq::<usize>::empty());
        lemma_resolve_all(ids, rules);
        assert(ids.map_values(|i: usize| rules[i as int]) =~= Seq::<RuleView>::empty());
    } else {
        let p = rules.drop_last();
        let x = rules.last();
        let n1 = (rules.len() - 1) as usize;
        let pids = ids_in_body(p, s);
        let f = x.1.filter(eq_symbol(s));
        let tail = f.map_values(|y: Symbol| n1);
        lemma_body_rules(p, s);
        assert(p.push(x) =~= rules);
        assert(ids == pids + tail);
        assert(all_below(ids, rules.len())) by {
            assert forall|j: int| 0 <= j < ids.len() implies (#[trigger] ids[j] as nat) < rules.len() by {
                if j < pids.len() {
                    assert(ids[j] == pids[j]);
                } else {
                    assert(ids[j] == tail[j - pids.len()]);
                }
            }
        }
        lemma_resolve_all(ids, rules);
        lemma_resolve_all(pids, p);
        lemma_map_extend(pids, p, x);
        let a = ids.map_values(|i: usize| rules[i as int]);
        let b = pids.map_values(|i: usize| rules[i as int]) + f.map_values(|y: Symbol| x);
        assert(a.len() == b.len());
        assert forall|j: int| 0 <= j < a.len() implies a[j] == b[j] by {
            if j < pids.len() {
                assert(ids[j] == pids[j]);
            } else {
                assert(ids[j] == tail[j - pids.len()]);
                assert(tail[j - pids.len()] == n1);
            }
        }
        assert(a =~= b);
    }
}

impl<R> Grammar<R> {
    /// The rules, in the order they were given.
    pub closed spec fn rule_list(&self) -> Seq<RuleView> {
        rule_views(self.rules@)
    }

    /// The action routines, in the order they were given.
    pub closed spec fn routines(&self) -> Seq<R> {
        self.action_routines@
    }

    /// The positions in the routine list under which the routines of `rule` were filed.
    pub closed spec fn routine_ids(&self, rule: RuleView) -> Seq<usize> {
        lookup(routine_index_view(self.rules_to_routines_map@), rule)
    }

    /// The routines `get_routines(rule)` copies: those filed under `rule`, in order.
    pub open spec fn routines_of(&self, rule: RuleView) -> Seq<R> {
        resolve(self.routine_ids(rule), self.routines())
    }

    /// The start symbol.
    pub closed spec fn start(&self) -> Symbol {
        self.start_symbol
    }

    /// The symbols of the grammar, in id order.
    pub closed spec fn symbols(&self) -> Seq<Symbol> {
        self.first_sets@.map_values(|e: (Symbol, SymbolSet)| e.0)
    }

    /// The FIRST sets, as sets of ids, indexed by symbol id.
    pub closed spec fn first_view(&self) -> Seq<Set<nat>> {
        self.first_sets@.map_values(|e: (Symbol, SymbolSet)| e.1@)
    }

    /// The FOLLOW sets, as sets of ids, indexed by symbol id.
    pub closed spec fn follow_view(&self) -> Seq<Set<nat>> {
        self.follow_sets@.map_values(|e: (Symbol, SymbolSet)| e.1@)
    }

    /// `s` is a symbol of the grammar, found by its id.
    pub open spec fn has_symbol(&self, s: Symbol) -> bool {
        (s.id as int) < self.symbols().len() && self.symbols()[s.id as int] == s
    }

    /// The rules `rule_by_head(head)` gives: those with head `head`, in order.
    pub open spec fn rules_by_head_spec(&self, head: Symbol) -> Seq<RuleView> {
        head_rules(self.rule_list(), head)
    }

    /// The rules `rule_by_body(s)` gives: each rule, in order, once per occurrence of `s` in its
    /// body.
    pub open spec fn rules_by_body_spec(&self, s: Symbol) -> Seq<RuleView> {
        body_rules(self.rule_list(), s)
    }

    /// The index maps agree with the rule list and the routine declarations.
    pub closed spec fn index_wf(&self) -> bool {
        &&& indexes(index_view(self.rules_by_head@), heads_fn(self.rule_list()))
        &&& indexes(index_view(self.rules_by_body@), bodies_fn(self.rule_list()))
        &&& indexes(
            routine_index_view(self.rules_to_routines_map@),
            routine_ids_fn(self.declarations@),
        )
        &&& self.action_routines@.len() == routine_total(self.declarations@)
    }

    /// A FIRST set is kept for each symbol of the grammar, in id order; there are at most 256
    /// symbols and each set has room for 256 ids.
    pub closed spec fn first_wf(&self) -> bool {
        &&& self.first_sets@.len() == self.symbol_domain_size
        &&& forall|i: int|
            0 <= i < self.first_sets@.len() ==> (#[trigger] self.first_sets@[i]).0.id == i
                && self.first_sets@[i].1.word_count() == 4
    }

    /// A FOLLOW set is kept for each symbol of the grammar, under the same keys as the FIRST
    /// sets; each set has room for 256 ids.
    pub closed spec fn follow_wf(&self) -> bool {
        &&& self.follow_sets@.len() == self.first_sets@.len()
        &&& forall|i: int|
            0 <= i < self.follow_sets@.len() ==> (#[trigger] self.follow_sets@[i]).0
                == self.first_sets@[i].0 && self.follow_sets@[i].1.word_count() == 4
    }

    fn collect_rules(&self, ids: &Vec<usize>) -> (r: Vec<GrammarRule>)
        ensures
            rule_views(r@) == resolve(ids@, self.rule_list()),
    {
        let mut r: Vec<GrammarRule> = Vec::new();
        let mut j: usize = 0;
        proof {
            assert(ids@.take(0).filter(|i: usize| i < self.rule_list().len()) =~= Seq::<usize>::empty())
                by {
                reveal(Seq::filter);
            }
            assert(rule_views(r@) =~= resolve(ids@.take(0), self.rule_list()));
        }
        while j < ids.len()
            invariant
                j <= ids@.len(),
                rule_views(r@) == resolve(ids@.take(j as int), self.rule_list()),
            decreases ids@.len() - j,
        {
            let i = ids[j];
            proof {
                assert(ids@.take(j + 1) =~= ids@.take(j as int).push(i));
                lemma_resolve_push(ids@.take(j as int), self.rule_list(), i);
            }
            if i < self.rules.len() {
                let rule = self.rules[i].clone();
                let ghost before = r@;
                r.push(rule);
                proof {
                    assert(r@.drop_last() =~= before);
                    assert(rule_views(r@) =~= rule_views(before).push(rule@));
                }
            }
            j = j + 1;
        }
        proof {
            assert(ids@.take(j as int) =~= ids@);
        }
        r
    }
}

impl<R> Grammar<R> {
    /// The rule at position `index` of the rule list (counted from 0).
    pub fn get_rule(&self, index: usize) -> (r: Option<GrammarRule>)
        ensures
            match r {
                Some(rule) => index < self.rule_list().len() && rule@ == self.rule_list()[index as int],
                None => index >= self.rule_list().len(),
            },
    {
        if index < self.rules.len() {
            Some(self.rules[index].clone())
        } else {
            None
        }
    }

    /// The rules listed under `head` in the head index.
    pub fn rule_by_head(&self, head: Symbol) -> (r: Vec<GrammarRule>)
        requires
            self.index_wf(),
        ensures
            rule_views(r@) == self.rules_by_head_spec(head),
            rule_views(r@) == self.rule_list().filter(has_head(head)),
            forall|rv: RuleView| #[trigger] rule_views(r@).contains(rv) <==> self.rule_list().contains(rv) && rv.0 == head,
    {
        proof {
            crate::symbol::lemma_filter_has_all(self.rule_list(), has_head(head));
            lemma_lookup(index_view(self.rules_by_head@), heads_fn(self.rule_list()), head);
            assert(self.rules.len() == self.rules@.len());
            lemma_head_rules(self.rule_list(), head);
        }
        match find_symbol(&self.rules_by_head, head) {
            Some(i) => {
                proof {
                    assert(index_view(self.rules_by_head@)[i as int].1 == heads_fn(self.rule_list())(
                        head,
                    ));
                }
                self.collect_rules(&self.rules_by_head[i].1)
            },
            None => {
                proof {
                    lemma_absent(index_view(self.rules_by_head@), heads_fn(self.rule_list()), head);
                    reveal(Seq::filter);
                    assert(self.rules_by_head_spec(head) =~= Seq::<RuleView>::empty());
                }
                Vec::new()
            },
        }
    }

    /// The rules listed under `symbol` in the body index.
    pub fn rule_by_body(&self, symbol: Symbol) -> (r: Vec<GrammarRule>)
        requires
            self.index_wf(),
        ensures
            rule_views(r@) == self.rules_by_body_spec(symbol),
            rule_views(r@) == body_rules(self.rule_list(), symbol),
            forall|rv: RuleView| #[trigger] rule_views(r@).contains(rv) <==> self.rule_list().contains(rv) && rv.1.contains(
                symbol,
            ),
    {
        proof {
            lemma_body_rules_has(self.rule_list(), symbol);
            assert(self.rules.len() == self.rules@.len());
            lemma_body_rules(self.rule_list(), symbol);
        }
        match find_symbol(&self.rules_by_body, symbol) {
            Some(i) => {
                proof {
                    assert(index_view(self.rules_by_body@)[i as int].1 == bodies_fn(self.rule_list())(
                        symbol,
                    ));
                }
                self.collect_rules(&self.rules_by_body[i].1)
            },
            None => {
                proof {
                    lemma_absent(index_view(self.rules_by_body@), bodies_fn(self.rule_list()), symbol);
                    reveal(Seq::filter);
                    assert(self.rules_by_body_spec(symbol) =~= Seq::<RuleView>::empty());
                }
                Vec::new()
            },
        }
    }

    /// The FIRST set of `symbol`.
    pub fn first_set(&self, symbol: Symbol) -> (r: SymbolSet)
        requires
            self.first_wf(),
            self.has_symbol(symbol),
        ensures
            r@ == self.first_view()[symbol.id as int],
            r.word_count() == 4,
    {
        self.first_sets[symbol.id as usize].1.clone()
    }

    /// The FOLLOW set of `symbol`.
    pub fn follow_set(&self, symbol: Symbol) -> (r: SymbolSet)
        requires
            self.first_wf(),
            self.follow_wf(),
            self.has_symbol(symbol),
        ensures
            r@ == self.follow_view()[symbol.id as int],
            r.word_count() == 4,
    {
        self.follow_sets[symbol.id as usize].1.clone()
    }
}

impl<R: Clone> Grammar<R> {
    /// Copies of the routines declared with `grammar_rule`, in declaration order. Each routine
    /// is filed under its position in the routine list, and looked up by that same position.
    pub fn get_routines(&self, grammar_rule: GrammarRule) -> (r: Vec<R>)
        requires
            self.index_wf(),
        ensures
            r@.len() == self.routines_of(grammar_rule@).len(),
            forall|k: int| 0 <= k < r@.len() ==> cloned::<R>(self.routines_of(grammar_rule@)[k], #[trigger] r@[k]),
    {
        proof {
            lemma_lookup(
                routine_index_view(self.rules_to_routines_map@),
                routine_ids_fn(self.declarations@),
                grammar_rule@,
            );
        }
        match find_rule(&self.rules_to_routines_map, &grammar_rule) {
            Some(i) => {
                let ids = &self.rules_to_routines_map[i].1;
                proof {
                    let a = routine_index_view(self.rules_to_routines_map@);
                    assert(a[i as int].0 == grammar_rule@);
                    assert(a[i as int].1 == routine_ids_fn(self.declarations@)(grammar_rule@));
                    assert(ids@ == self.routine_ids(grammar_rule@));
                }
                let mut r: Vec<R> = Vec::new();
                let mut j: usize = 0;
                proof {
                    assert(ids@.take(0).filter(|i: usize| i < self.routines().len()) =~= Seq::<usize>::empty())
                        by {
                        reveal(Seq::filter);
                    }
                }
                while j < ids.len()
                    invariant
                        j <= ids@.len(),
                        r@.len() == resolve(ids@.take(j as int), self.routines()).len(),
                        forall|k: int|
                            0 <= k < r@.len() ==> cloned::<R>(
                                resolve(ids@.take(j as int), self.routines())[k],
                                #[trigger] r@[k],
                            ),
                    decreases ids@.len() - j,
                {
                    let i = ids[j];
                    proof {
                        assert(ids@.take(j + 1) =~= ids@.take(j as int).push(i));
                        lemma_resolve_push(ids@.take(j as int), self.routines(), i);
                    }
                    if i < self.action_routines.len() {
                        let routine = self.action_routines[i].clone();
                        r.push(routine);
                    }
                    j = j + 1;
                }
                proof {
                    assert(ids@.take(j as int) =~= ids@);
                }
                r
            },
            None => {
                proof {
                    lemma_absent(
                        routine_index_view(self.rules_to_routines_map@),
                        routine_ids_fn(self.declarations@),
                        grammar_rule@,
                    );
                    reveal(Seq::filter);
                    assert(resolve(self.routine_ids(grammar_rule@), self.routines()) =~= Seq::<R>::empty());
                }
                Vec::new()
            },
        }
    }
}

/// A key `a` does not list has no value.
proof fn lemma_absent<K>(a: Seq<(K, Seq<usize>)>, f: spec_fn(K) -> Seq<usize>, k: K)
    requires
        indexes(a, f),
        forall|i: int| 0 <= i < a.len() ==> a[i].0 != k,
    ensures
        f(k) == Seq::<usize>::empty(),
        lookup(a, k) == Seq::<usize>::empty(),
{
    if f(k).len() > 0 {
        let i = choose|i: int| 0 <= i < a.len() && #[trigger] a[i].0 == k;
        assert(a[i].0 == k);
    }
    assert(f(k) =~= Seq::<usize>::empty());
}

/// `b` holds everything `a` holds and something more.
pub open spec fn grew(a: Set<nat>, b: Set<nat>) -> bool {
    a.subset_of(b) && exists|e: nat| b.contains(e) && !a.contains(e)
}

/// The set `fs` keeps for id `j`; none for an id out of range.
pub open spec fn set_at(fs: Seq<Set<nat>>, j: int) -> Set<nat> {
    if 0 <= j < fs.len() {
        fs[j]
    } else {
        Set::empty()
    }
}

/// How many symbols of `body`, from position `k` on, a FIRST computation reads: all of them up
/// to and including the first whose FIRST set lacks epsilon (id 0).
pub open spec fn stop_from(fs: Seq<Set<nat>>, body: Seq<Symbol>, k: int) -> int
    decreases body.len() - k,
{
    if k >= body.len() {
        body.len() as int
    } else if !set_at(fs, body[k].id as int).contains(0) {
        k + 1
    } else {
        stop_from(fs, body, k + 1)
    }
}

/// The FIRST sets of the first `k` symbols of `body`, without epsilon.
pub open spec fn union_upto(fs: Seq<Set<nat>>, body: Seq<Symbol>, k: int) -> Set<nat>
    decreases k,
{
    if k <= 0 {
        Set::empty()
    } else {
        union_upto(fs, body, k - 1).union(set_at(fs, body[k - 1].id as int).remove(0))
    }
}

/// The FIRST sets of the first `k` symbols of `body` all hold epsilon.
pub open spec fn nullable_upto(fs: Seq<Set<nat>>, body: Seq<Symbol>, k: int) -> bool {
    forall|i: int| 0 <= i < k ==> #[trigger] set_at(fs, body[i].id as int).contains(0)
}

/// FIRST of a rule body under the sets `fs`: the FIRST sets, without epsilon, of the symbols up
/// to the first one that cannot derive the empty string, and epsilon when all of them can.
pub open spec fn body_first(fs: Seq<Set<nat>>, body: Seq<Symbol>) -> Set<nat> {
    let u = union_upto(fs, body, stop_from(fs, body, 0));
    if nullable_upto(fs, body, body.len() as int) {
        u.insert(0)
    } else {
        u
    }
}

/// The FIRST sets of the bodies of the first `m` rules of `rs`.
pub open spec fn rules_first(fs: Seq<Set<nat>>, rs: Seq<RuleView>, m: int) -> Set<nat>
    decreases m,
{
    if m <= 0 {
        Set::empty()
    } else {
        rules_first(fs, rs, m - 1).union(body_first(fs, rs[m - 1].1))
    }
}

/// Under the sets `fs`, the FIRST equations hold at symbol `x`, whose rules are `rs`: each
/// body's FIRST set is in `fs[x]`, and each nonterminal in a body is in `v`.
pub open spec fn first_closed_at(fs: Seq<Set<nat>>, rs: Seq<RuleView>, v: Set<nat>, x: nat) -> bool {
    forall|m: int|
        0 <= m < rs.len() ==> {
            &&& body_first(fs, #[trigger] rs[m].1).subset_of(fs[x as int])
            &&& forall|i: int|
                0 <= i < rs[m].1.len() && (#[trigger] rs[m].1[i]).symbol_type == SymbolType::Nonterminal
                    ==> v.contains(rs[m].1[i].id as nat)
        }
}

proof fn lemma_stop_from(fs: Seq<Set<nat>>, body: Seq<Symbol>, k: int)
    requires
        0 <= k <= body.len(),
        nullable_upto(fs, body, k),
    ensures
        stop_from(fs, body, 0) == stop_from(fs, body, k),
    decreases k,
{
    if k > 0 {
        lemma_stop_from(fs, body, k - 1);
        assert(set_at(fs, body[k - 1].id as int).contains(0));
    }
}

proof fn lemma_stop_bounds(fs: Seq<Set<nat>>, body: Seq<Symbol>, k: int)
    requires
        0 <= k <= body.len(),
    ensures
        k <= stop_from(fs, body, k) <= body.len(),
    decreases body.len() - k,
{
    if k < body.len() && fs[body[k].id as int].contains(0) {
        lemma_stop_bounds(fs, body, k + 1);
    }
}

proof fn lemma_closed_mono(fs: Seq<Set<nat>>, rs: Seq<RuleView>, v: Set<nat>, w: Set<nat>, x: nat)
    requires
        first_closed_at(fs, rs, v, x),
        v.subset_of(w),
    ensures
        first_closed_at(fs, rs, w, x),
{
}

/// The sum of the sizes of the sets.
pub open spec fn total(fs: Seq<Set<nat>>) -> nat
    decreases fs.len(),
{
    if fs.len() == 0 {
        0
    } else {
        total(fs.drop_last()) + fs.last().len()
    }
}

proof fn lemma_total_grows(a: Seq<Set<nat>>, b: Seq<Set<nat>>, x: int)
    requires
        a.len() == b.len(),
        forall|i: int| 0 <= i < b.len() ==> (#[trigger] b[i]).finite() && a[i].subset_of(b[i]),
        0 <= x < b.len() ==> grew(a[x], b[x]),
    ensures
        total(a) <= total(b),
        0 <= x < b.len() ==> total(a) < total(b),
    decreases a.len(),
{
    if a.len() > 0 {
        let n = a.len() - 1;
        assert forall|i: int| 0 <= i < b.drop_last().len() implies (#[trigger] b.drop_last()[i]).finite()
            && a.drop_last()[i].subset_of(b.drop_last()[i]) by {
            assert(b.drop_last()[i] == b[i]);
        }
        lemma_total_grows(a.drop_last(), b.drop_last(), if x < n { x } else { -1 });
        assert(b[n].finite());
        vstd::set_lib::lemma_len_subset(a[n], b[n]);
        if x == n {
            let e = choose|e: nat| b[n].contains(e) && !a[n].contains(e);
            a[n].lemma_subset_not_in_lt(b[n], e);
        }
    }
}

proof fn lemma_total_bound(a: Seq<Set<nat>>, cap: nat)
    requires
        forall|i: int| 0 <= i < a.len() ==> (#[trigger] a[i]).finite() && a[i].len() <= cap,
    ensures
        total(a) <= cap * a.len(),
    decreases a.len(),
{
    if a.len() > 0 {
        assert forall|i: int| 0 <= i < a.drop_last().len() implies (#[trigger] a.drop_last()[i]).finite()
            && a.drop_last()[i].len() <= cap by {
            assert(a.drop_last()[i] == a[i]);
        }
        lemma_total_bound(a.drop_last(), cap);
        assert(cap * a.drop_last().len() + cap == cap * a.len()) by (nonlinear_arith)
            requires
                a.drop_last().len() + 1 == a.len(),
        ;
    }
}

impl<R> Grammar<R> {
    /// `self` and `other` differ at most in the contents of their FIRST sets.
    pub closed spec fn same_but_first(&self, other: &Grammar<R>) -> bool {
        &&& self.start_symbol == other.start_symbol
        &&& self.rules == other.rules
        &&& self.action_routines == other.action_routines
        &&& self.rules_to_routines_map == other.rules_to_routines_map
        &&& self.rules_by_head == other.rules_by_head
        &&& self.rules_by_body == other.rules_by_body
        &&& self.symbol_domain_size == other.symbol_domain_size
        &&& self.follow_sets == other.follow_sets
        &&& self.declarations == other.declarations
        &&& self.first_sets@.len() == other.first_sets@.len()
        &&& forall|i: int|
            0 <= i < self.first_sets@.len() ==> (#[trigger] other.first_sets@[i]).0
                == self.first_sets@[i].0
    }

    /// Symbol `x`, by id, is a nonterminal of the grammar.
    pub open spec fn is_nonterminal_id(&self, x: nat) -> bool {
        x < self.symbols().len() && self.symbols()[x as int].symbol_type == SymbolType::Nonterminal
    }

    /// The rules `rule_by_head` gives for the symbol with id `x`.
    pub open spec fn rules_of(&self, x: nat) -> Seq<RuleView> {
        rules_for(self.symbols(), self.rule_list(), x)
    }

    /// The walks from the members of `c` stay inside `c`, and the symbols they read are known.
    pub open spec fn walk_ok(&self, c: Set<nat>) -> bool {
        &&& set_closed(self.symbols(), self.rule_list(), c)
        &&& small_terminals(self.symbols())
    }

    proof fn lemma_walk(&self, c: Set<nat>, x: nat, m: int, i: int)
        requires
            self.walk_ok(c),
            c.contains(x),
            0 <= m < self.rules_of(x).len(),
        ensures
            x < 256,
            self.is_nonterminal_id(x),
            self.has_symbol(self.rules_of(x)[m].0),
            0 <= i < self.rules_of(x)[m].1.len() ==> {
                let s = self.rules_of(x)[m].1[i];
                &&& self.has_symbol(s)
                &&& s.id < 256
                &&& s.symbol_type == SymbolType::Nonterminal ==> c.contains(s.id as nat)
            },
    {
        assert(rule_ok(self.symbols(), c, self.rules_of(x)[m]));
        if 0 <= i < self.rules_of(x)[m].1.len() {
            let s = self.rules_of(x)[m].1[i];
            assert(known(self.symbols(), s));
            if s.symbol_type != SymbolType::Nonterminal {
                assert(self.symbols()[s.id as int].symbol_type != SymbolType::Nonterminal);
            }
        }
    }
}

impl<R> Grammar<R> {
    /// From `(fs0, v0, u0)` to the current state: only the FIRST sets changed, each grew, and a
    /// set that changed is that of a symbol newly marked updated and not visited before; every
    /// symbol newly marked updated has a strictly larger set; newly visited symbols are
    /// nonterminals; the updated symbols are visited ones.
    pub closed spec fn first_progress(
        &self,
        g0: &Grammar<R>,
        v0: Set<nat>,
        u0: Set<nat>,
        v: Set<nat>,
        u: Set<nat>,
    ) -> bool {
        let fs0 = g0.first_view();
        let fs = self.first_view();
        &&& g0.same_but_first(self)
        &&& self.first_wf()
        &&& v0.subset_of(v)
        &&& u0.subset_of(u)
        &&& u.subset_of(v)
        &&& forall|i: int| 0 <= i < fs.len() ==> #[trigger] fs0[i].subset_of(fs[i])
        &&& forall|i: int| 0 <= i < fs.len() && fs[i] != fs0[i] ==> u.contains(i as nat) && !v0.contains(i as nat)
        &&& forall|x: nat| u.contains(x) && !u0.contains(x) ==> x < fs.len() && grew(fs0[x as int], fs[x as int])
        &&& forall|x: nat| v.contains(x) && !v0.contains(x) ==> self.is_nonterminal_id(x)
    }

    /// When no symbol was newly marked updated since `(fs0, u0)`, the FIRST sets are unchanged and
    /// the equations hold at every symbol newly visited since `b`.
    pub closed spec fn first_quiet(&self, g0: &Grammar<R>, b: Set<nat>, u0: Set<nat>, v: Set<nat>, u: Set<nat>) -> bool {
        u == u0 ==> {
            &&& self.first_view() == g0.first_view()
            &&& forall|y: nat|
                v.contains(y) && !b.contains(y) ==> first_closed_at(self.first_view(), self.rules_of(y), v, y)
        }
    }
}

impl<R> Grammar<R> {
    proof fn lemma_same_but_first(a: &Grammar<R>, b: &Grammar<R>)
        requires
            a.same_but_first(b),
        ensures
            a.symbols() == b.symbols(),
            a.rule_list() == b.rule_list(),
            a.index_wf() == b.index_wf(),
            forall|c: Set<nat>| a.walk_ok(c) == b.walk_ok(c),
            a.follow_view() == b.follow_view(),
            a.start() == b.start(),
            a.routines() == b.routines(),
            forall|r: RuleView| a.routine_ids(r) == b.routine_ids(r),
            forall|x: nat| a.rules_of(x) == b.rules_of(x),
            forall|x: nat| a.is_nonterminal_id(x) == b.is_nonterminal_id(x),
    {
        assert(a.symbols() =~= b.symbols());
    }

    proof fn lemma_progress_refl(&self, v: Set<nat>, u: Set<nat>)
        requires
            self.first_wf(),
            u.subset_of(v),
        ensures
            self.first_progress(self, v, u, v, u),
            self.first_quiet(self, v, u, v, u),
    {
    }

    proof fn lemma_progress_trans(
        g0: &Grammar<R>,
        g1: &Grammar<R>,
        g2: &Grammar<R>,
        b: Set<nat>,
        v0: Set<nat>,
        u0: Set<nat>,
        v1: Set<nat>,
        u1: Set<nat>,
        v2: Set<nat>,
        u2: Set<nat>,
    )
        requires
            g1.first_progress(g0, v0, u0, v1, u1),
            g2.first_progress(g1, v1, u1, v2, u2),
            g1.first_quiet(g0, b, u0, v1, u1),
            g2.first_quiet(g1, v1, u1, v2, u2),
            b.subset_of(v1),
        ensures
            g2.first_progress(g0, v0, u0, v2, u2),
            g2.first_quiet(g0, b, u0, v2, u2),
    {
        let fs0 = g0.first_view();
        let fs1 = g1.first_view();
        let fs2 = g2.first_view();
        Self::lemma_same_but_first(g1, g2);
        Self::lemma_same_but_first(g0, g1);
        assert forall|i: int| 0 <= i < fs2.len() implies #[trigger] fs0[i].subset_of(fs2[i]) by {
            assert(fs0[i].subset_of(fs1[i]));
            assert(fs1[i].subset_of(fs2[i]));
        }
        assert forall|x: nat| u2.contains(x) && !u0.contains(x) implies x < fs2.len() && grew(
            fs0[x as int],
            fs2[x as int],
        ) by {
            if u1.contains(x) {
                assert(grew(fs0[x as int], fs1[x as int]));
                assert(fs1[x as int].subset_of(fs2[x as int]));
            } else {
                assert(grew(fs1[x as int], fs2[x as int]));
                assert(fs0[x as int].subset_of(fs1[x as int]));
            }
        }
        assert forall|i: int| 0 <= i < fs2.len() && fs2[i] != fs0[i] implies u2.contains(i as nat)
            && !v0.contains(i as nat) by {
            if fs1[i] != fs0[i] {
            } else {
                assert(fs2[i] != fs1[i]);
            }
        }
        if u2 == u0 {
            assert(u1 =~= u0);
            assert(u2 =~= u1);
            assert forall|y: nat| v2.contains(y) && !b.contains(y) implies first_closed_at(
                fs2,
                g2.rules_of(y),
                v2,
                y,
            ) by {
                if v1.contains(y) {
                    lemma_closed_mono(fs1, g1.rules_of(y), v1, v2, y);
                }
            }
        }
    }
}

impl<R> Grammar<R> {
    /// Walks the productions from `symbol` through every symbol of each rule body, growing the
    /// FIRST set of each nonterminal it visits by the FIRST sets of its rule bodies, and marks
    /// in `updated` each symbol whose set grew. Applied until a walk marks nothing, this reaches
    /// sets on which the FIRST equations hold for every symbol the walk visits. Gives the FIRST
    /// set of `symbol`. The walk may start anywhere: `root` is any symbol from which `symbol`
    /// and the symbols already visited are reached, `symbol` itself included; the walk then
    /// stays within what `root` reaches.
    #[verifier::rlimit(60)]
    fn traverse_first_sets(
        &mut self,
        symbol: Symbol,
        visited: &mut SymbolSet,
        updated: &mut SymbolSet,
        Ghost(c): Ghost<Set<nat>>,
        Ghost(root): Ghost<Symbol>,
    ) -> (result: SymbolSet)
        requires
            old(self).first_wf(),
            old(self).index_wf(),
            old(self).walk_ok(c),
            old(self).has_symbol(symbol),
            symbol.symbol_type == SymbolType::Nonterminal ==> c.contains(symbol.id as nat),
            old(visited).word_count() == 4,
            old(updated).word_count() == 4,
            old(updated)@.subset_of(old(visited)@),
            first_sound(old(self).symbols(), old(self).rule_list(), old(self).first_view()),
            symbol.symbol_type == SymbolType::Nonterminal ==> in_every_walk(
                old(self).symbols(),
                old(self).rule_list(),
                root,
                symbol.id as nat,
            ),
            old(visited)@.subset_of(every_walk_set(old(self).symbols(), old(self).rule_list(), root)),
        ensures
            final(visited)@.subset_of(every_walk_set(final(self).symbols(), final(self).rule_list(), root)),
            first_sound(final(self).symbols(), final(self).rule_list(), final(self).first_view()),
            final(self).first_progress(old(self), old(visited)@, old(updated)@, final(visited)@, final(updated)@),
            final(self).first_quiet(old(self), old(visited)@, old(updated)@, final(visited)@, final(updated)@),
            final(visited).word_count() == 4,
            final(updated).word_count() == 4,
            symbol.symbol_type == SymbolType::Nonterminal ==> final(visited)@.contains(symbol.id as nat),
            result@ == final(self).first_view()[symbol.id as int],
            result.word_count() == 4,
            symbol.symbol_type != SymbolType::Nonterminal || old(visited)@.contains(symbol.id as nat) ==> {
                &&& final(visited)@ == old(visited)@
                &&& final(updated)@ == old(updated)@
                &&& final(self).first_view() == old(self).first_view()
            },
        decreases 256 - old(visited)@.len(),
    {
        let ghost g0 = *self;
        let ghost v0 = visited@;
        let ghost u0 = updated@;
        let ghost x = symbol.id as nat;
        let ghost fs0 = self.first_view();
        proof {
            self.lemma_progress_refl(v0, u0);
        }
        if symbol.symbol_type != SymbolType::Nonterminal || visited.contains(symbol) {
            return self.first_set(symbol);
        }
        proof {
            assert(c.contains(x));
            assert(x < 256);
        }
        visited.insert(symbol);
        let ghost v1 = visited@;
        proof {
            assert(v1 == v0.insert(x));
            assert(self.first_progress(&g0, v0, u0, v1, u0));
            assert(self.first_quiet(&g0, v1, u0, v1, u0));
        }
        let ghost keys = g0.symbols();
        let ghost rl = g0.rule_list();
        proof {
            assert(visited@.subset_of(every_walk_set(keys, rl, root)));
        }
        let ghost mut kk: nat = choose|kk: nat| below(fs0, first_iter(keys, rl, kk));
        let rules = self.rule_by_head(symbol);
        let ghost rs = rule_views(rules@);
        proof {
            assert(rs == g0.rules_of(x));
        }
        let mut updated_first_set = self.first_set(symbol);
        proof {
            assert(updated_first_set@ =~= fs0[x as int].union(rules_first(fs0, rs, 0)));
            assert(updated_first_set@ =~= fs0[x as int].union(rules_first(first_iter(keys, rl, kk), rs, 0)));
        }
        let mut m: usize = 0;
        while m < rules.len()
            invariant
                m <= rs.len(),
                rs == rule_views(rules@),
                rs == g0.rules_of(x),
                g0 == *old(self),
                fs0 == g0.first_view(),
                v0 == old(visited)@,
                u0 == old(updated)@,
                x == symbol.id,
                symbol.symbol_type == SymbolType::Nonterminal,
                !v0.contains(x),
                v1 == v0.insert(x),
                g0.first_wf(),
                g0.index_wf(),
                g0.walk_ok(c),
                c.contains(x),
                g0.has_symbol(symbol),
                v1.subset_of(visited@),
                self.first_progress(&g0, v0, u0, visited@, updated@),
                self.first_quiet(&g0, v1, u0, visited@, updated@),
                self.first_view()[x as int] == fs0[x as int],
                fs0[x as int].subset_of(updated_first_set@),
                updated_first_set.word_count() == 4,
                visited.word_count() == 4,
                updated.word_count() == 4,
                updated@ == u0 ==> updated_first_set@ == fs0[x as int].union(rules_first(fs0, rs, m as int)),
                keys == g0.symbols(),
                rl == g0.rule_list(),
                in_every_walk(keys, rl, root, x),
                visited@.subset_of(every_walk_set(keys, rl, root)),
                below(self.first_view(), first_iter(keys, rl, kk)),
                updated_first_set@.subset_of(fs0[x as int].union(rules_first(first_iter(keys, rl, kk), rs, m as int))),
                updated@ == u0 ==> forall|mm: int, i: int|
                    0 <= mm < m && 0 <= i < rs[mm].1.len() && (#[trigger] rs[mm].1[i]).symbol_type
                        == SymbolType::Nonterminal ==> visited@.contains(rs[mm].1[i].id as nat),
            decreases rs.len() - m,
        {
            let ghost body = rs[m as int].1;
            let ghost acc_m = updated_first_set@;
            let mut body_is_nulllable = true;
            let mut k: usize = 0;
            proof {
                assert(union_upto(fs0, body, 0) == Set::<nat>::empty());
                assert(acc_m =~= acc_m.union(union_upto(fs0, body, 0)));
            }
            while k < rules[m].body.len() && body_is_nulllable
                invariant
                    m < rs.len(),
                    k <= body.len(),
                    body == rs[m as int].1,
                    body == rules@[m as int].body@,
                    rs == rule_views(rules@),
                    rs == g0.rules_of(x),
                    g0 == *old(self),
                    fs0 == g0.first_view(),
                    v0 == old(visited)@,
                    u0 == old(updated)@,
                    x == symbol.id,
                    !v0.contains(x),
                    v1 == v0.insert(x),
                    g0.first_wf(),
                    g0.index_wf(),
                    g0.walk_ok(c),
                c.contains(x),
                    v1.subset_of(visited@),
                    self.first_progress(&g0, v0, u0, visited@, updated@),
                    self.first_quiet(&g0, v1, u0, visited@, updated@),
                    self.first_view()[x as int] == fs0[x as int],
                    fs0[x as int].subset_of(acc_m),
                    acc_m.subset_of(updated_first_set@),
                    updated_first_set.word_count() == 4,
                    visited.word_count() == 4,
                    updated.word_count() == 4,
                    !body_is_nulllable ==> k >= 1,
                    keys == g0.symbols(),
                    rl == g0.rule_list(),
                    in_every_walk(keys, rl, root, x),
                    visited@.subset_of(every_walk_set(keys, rl, root)),
                    below(self.first_view(), first_iter(keys, rl, kk)),
                    acc_m.subset_of(fs0[x as int].union(rules_first(first_iter(keys, rl, kk), rs, m as int))),
                    updated_first_set@.subset_of(acc_m.union(union_upto(first_iter(keys, rl, kk), body, k as int))),
                    body_is_nulllable ==> nullable_upto(first_iter(keys, rl, kk), body, k as int),
                    !body_is_nulllable ==> k <= stop_from(first_iter(keys, rl, kk), body, 0),
                    updated@ == u0 ==> {
                        &&& updated_first_set@ == acc_m.union(union_upto(fs0, body, k as int))
                        &&& acc_m == fs0[x as int].union(rules_first(fs0, rs, m as int))
                        &&& body_is_nulllable ==> nullable_upto(fs0, body, k as int)
                        &&& body_is_nulllable ==> stop_from(fs0, body, 0) == stop_from(fs0, body, k as int)
                        &&& !body_is_nulllable ==> stop_from(fs0, body, 0) == k && !fs0[body[k - 1].id as int].contains(0)
                        &&& forall|i: int|
                            0 <= i < k && (#[trigger] body[i]).symbol_type == SymbolType::Nonterminal
                                ==> visited@.contains(body[i].id as nat)
                        &&& forall|mm: int, i: int|
                            0 <= mm < m && 0 <= i < rs[mm].1.len() && (#[trigger] rs[mm].1[i]).symbol_type
                                == SymbolType::Nonterminal ==> visited@.contains(rs[mm].1[i].id as nat)
                    },
                decreases body.len() - k,
            {
                let body_symbol = rules[m].body[k];
                let ghost g1 = *self;
                let ghost vb = visited@;
                let ghost ub = updated@;
                let ghost acc_b = updated_first_set@;
                proof {
                    g0.lemma_walk(c, x, m as int, k as int);
                    Self::lemma_same_but_first(&g0, self);
                    if body_symbol.symbol_type == SymbolType::Nonterminal {
                        lemma_every_walk_body(keys, rl, root, x, m as int, k as int);
                    }
                    visited.lemma_bounded();
                    v0.lemma_subset_not_in_lt(visited@, x);
                }
                let body_symbol_set = self.traverse_first_sets(body_symbol, visited, updated, Ghost(c), Ghost(root));
                proof {
                    Self::lemma_progress_trans(&g0, &g1, self, v1, v0, u0, vb, ub, visited@, updated@);
                    assert(self.first_view()[x as int] == fs0[x as int]) by {
                        if self.first_view()[x as int] != g1.first_view()[x as int] {
                            assert(!vb.contains(x));
                        }
                    }
                }
                proof {
                    Self::lemma_same_but_first(&g0, self);
                    let k1 = choose|k1: nat| below(self.first_view(), first_iter(keys, rl, k1));
                    let kk2: nat = if k1 < kk { kk } else { k1 };
                    lemma_first_iter_grows(keys, rl, k1, kk2);
                    lemma_below_trans(self.first_view(), first_iter(keys, rl, k1), first_iter(keys, rl, kk2));
                    lemma_lift(keys, rl, kk, kk2, body, rs, m as int, k as int);
                    kk = kk2;
                    assert(body_symbol_set@.subset_of(set_at(first_iter(keys, rl, kk), body_symbol.id as int)));
                }
                let ghost acc_before = updated_first_set@;
                updated_first_set.extend(&body_symbol_set.minus(Symbol::epsilon()));
                let has_eps = body_symbol_set.contains(Symbol::epsilon());
                proof {
                    let it = first_iter(keys, rl, kk);
                    assert(body[k as int] == body_symbol);
                    assert(union_upto(it, body, k + 1) == union_upto(it, body, k as int).union(
                        set_at(it, body_symbol.id as int).remove(0),
                    ));
                    assert(updated_first_set@.subset_of(acc_m.union(union_upto(it, body, k + 1))));
                    if has_eps {
                        assert forall|i: int| 0 <= i < k + 1 implies #[trigger] set_at(it, body[i].id as int).contains(0) by {
                            if i < k {
                                assert(nullable_upto(it, body, k as int));
                            }
                        }
                    } else {
                        lemma_stop_from(it, body, k as int);
                        lemma_stop_bounds(it, body, k + 1);
                    }
                }
                proof {
                    if updated@ == u0 {
                        assert(ub =~= u0);
                        assert(updated@ =~= ub);
                        assert(body_symbol_set@ == fs0[body_symbol.id as int]);
                        assert(union_upto(fs0, body, k + 1) == union_upto(fs0, body, k as int).union(
                            fs0[body_symbol.id as int].remove(0),
                        ));
                        assert(updated_first_set@ =~= acc_m.union(union_upto(fs0, body, k + 1)));
                        if has_eps {
                            assert forall|i: int| 0 <= i < k + 1 implies #[trigger] set_at(fs0, body[i].id as int).contains(0) by {
                                if i < k {
                                    assert(nullable_upto(fs0, body, k as int));
                                }
                            }
                            assert(nullable_upto(fs0, body, k + 1));
                            lemma_stop_from(fs0, body, k + 1);
                        } else {
                            lemma_stop_from(fs0, body, k as int);
                        }
                    }
                }
                if !has_eps {
                    body_is_nulllable = false;
                }
                k += 1;
            }
            let ghost acc_end = updated_first_set@;
            if body_is_nulllable {
                updated_first_set.insert(Symbol::epsilon());
            }
            proof {
                let it = first_iter(keys, rl, kk);
                lemma_stop_bounds(it, body, 0);
                if body_is_nulllable {
                    assert(k == body.len());
                    lemma_stop_from(it, body, k as int);
                    assert(body_first(it, body) == union_upto(it, body, k as int).insert(0));
                } else {
                    lemma_below_refl(it);
                    lemma_union_upto_mono(it, it, body, k as int, stop_from(it, body, 0));
                }
                assert(updated_first_set@.subset_of(acc_m.union(body_first(it, body))));
                assert(rules_first(it, rs, m + 1) == rules_first(it, rs, m as int).union(body_first(it, body)));
                assert(updated_first_set@.subset_of(fs0[x as int].union(rules_first(it, rs, m + 1))));
                if updated@ == u0 {
                    lemma_stop_bounds(fs0, body, k as int);
                    if body_is_nulllable {
                        assert(k == body.len());
                        assert(stop_from(fs0, body, 0) == body.len());
                    } else {
                        assert(!nullable_upto(fs0, body, body.len() as int));
                    }
                    assert(rules_first(fs0, rs, m + 1) == rules_first(fs0, rs, m as int).union(
                        body_first(fs0, body),
                    ));
                    assert(updated_first_set@ =~= fs0[x as int].union(rules_first(fs0, rs, m + 1)));
                }
            }
            let mut j: usize = k;
            while j < rules[m].body.len()
                invariant
                    m < rs.len(),
                    k <= j <= body.len(),
                    body == rs[m as int].1,
                    body == rules@[m as int].body@,
                    rs == rule_views(rules@),
                    rs == g0.rules_of(x),
                    g0 == *old(self),
                    fs0 == g0.first_view(),
                    v0 == old(visited)@,
                    u0 == old(updated)@,
                    x == symbol.id,
                    !v0.contains(x),
                    v1 == v0.insert(x),
                    g0.first_wf(),
                    g0.index_wf(),
                    g0.walk_ok(c),
                    c.contains(x),
                    v1.subset_of(visited@),
                    self.first_progress(&g0, v0, u0, visited@, updated@),
                    self.first_quiet(&g0, v1, u0, visited@, updated@),
                    self.first_view()[x as int] == fs0[x as int],
                    fs0[x as int].subset_of(updated_first_set@),
                    updated_first_set.word_count() == 4,
                    visited.word_count() == 4,
                    updated.word_count() == 4,
                    keys == g0.symbols(),
                    rl == g0.rule_list(),
                    in_every_walk(keys, rl, root, x),
                    visited@.subset_of(every_walk_set(keys, rl, root)),
                    below(self.first_view(), first_iter(keys, rl, kk)),
                    updated_first_set@.subset_of(fs0[x as int].union(rules_first(first_iter(keys, rl, kk), rs, m + 1))),
                    updated@ == u0 ==> {
                        &&& updated_first_set@ == fs0[x as int].union(rules_first(fs0, rs, m + 1))
                        &&& forall|i: int|
                            0 <= i < j && (#[trigger] body[i]).symbol_type == SymbolType::Nonterminal
                                ==> visited@.contains(body[i].id as nat)
                        &&& forall|mm: int, i: int|
                            0 <= mm < m && 0 <= i < rs[mm].1.len() && (#[trigger] rs[mm].1[i]).symbol_type
                                == SymbolType::Nonterminal ==> visited@.contains(rs[mm].1[i].id as nat)
                    },
                decreases body.len() - j,
            {
                let body_symbol = rules[m].body[j];
                let ghost g1 = *self;
                let ghost vb = visited@;
                let ghost ub = updated@;
                proof {
                    g0.lemma_walk(c, x, m as int, j as int);
                    Self::lemma_same_but_first(&g0, self);
                    if body_symbol.symbol_type == SymbolType::Nonterminal {
                        lemma_every_walk_body(keys, rl, root, x, m as int, j as int);
                    }
                    visited.lemma_bounded();
                    v0.lemma_subset_not_in_lt(visited@, x);
                }
                let _ = self.traverse_first_sets(body_symbol, visited, updated, Ghost(c), Ghost(root));
                proof {
                    Self::lemma_progress_trans(&g0, &g1, self, v1, v0, u0, vb, ub, visited@, updated@);
                    assert(self.first_view()[x as int] == fs0[x as int]) by {
                        if self.first_view()[x as int] != g1.first_view()[x as int] {
                            assert(!vb.contains(x));
                        }
                    }
                    Self::lemma_same_but_first(&g0, self);
                    let k1 = choose|k1: nat| below(self.first_view(), first_iter(keys, rl, k1));
                    let kk2: nat = if k1 < kk { kk } else { k1 };
                    lemma_first_iter_grows(keys, rl, k1, kk2);
                    lemma_below_trans(self.first_view(), first_iter(keys, rl, k1), first_iter(keys, rl, kk2));
                    lemma_lift(keys, rl, kk, kk2, body, rs, m + 1, j as int);
                    kk = kk2;
                    if updated@ == u0 {
                        assert(ub =~= u0);
                        assert(body[j as int] == body_symbol);
                    }
                }
                j += 1;
            }
            m += 1;
        }
        let ghost g2 = *self;
        let ghost u2 = updated@;
        let current = self.first_set(symbol);
        if !updated_first_set.is_subset(&current) {
            updated.insert(symbol);
            let stored = updated_first_set.clone();
            self.first_sets[symbol.id as usize].1 = stored;
            proof {
                let e = choose|e: nat| updated_first_set@.contains(e) && !fs0[x as int].contains(e);
                assert(self.first_view() =~= g2.first_view().update(x as int, updated_first_set@));
                assert(!u2.contains(x));
                Self::lemma_same_but_first(&g2, self);
                Self::lemma_same_but_first(&g0, &g2);
                lemma_first_step_bound(keys, rl, g2.first_view(), kk, x);
                lemma_first_iter_grows(keys, rl, kk, kk + 1);
                lemma_first_iter_len(keys, rl, kk + 1);
                let nf = self.first_view();
                let it1 = first_iter(keys, rl, kk + 1);
                assert(rs == rules_for(keys, rl, x));
                assert(g2.first_view()[x as int] == fs0[x as int]);
                assert(nf[x as int] == updated_first_set@);
                let it0 = first_iter(keys, rl, kk);
                assert(m == rs.len());
                assert(updated_first_set@.subset_of(fs0[x as int].union(rules_first(it0, rs, rs.len() as int))));
                assert(x < keys.len());
                assert(keys[x as int].symbol_type == SymbolType::Nonterminal);
                assert(fs0[x as int].subset_of(it0[x as int]));
                assert(rules_first(it0, rs, rs.len() as int).subset_of(it1[x as int]));
                assert(it0[x as int].subset_of(it1[x as int]));
                assert(updated_first_set@.subset_of(it1[x as int]));
                assert forall|i: int| 0 <= i < nf.len() implies #[trigger] nf[i].subset_of(it1[i]) by {
                    if i != x {
                        assert(g2.first_view()[i].subset_of(first_iter(keys, rl, kk)[i]));
                    }
                }
                assert(below(nf, it1));
            }
        } else {
            proof {
                assert(updated_first_set@ =~= fs0[x as int]);
                if updated@ == u0 {
                    assert(first_closed_at(self.first_view(), self.rules_of(x), visited@, x)) by {
                        Self::lemma_same_but_first(&g0, self);
                        assert forall|mm: int| 0 <= mm < rs.len() implies body_first(
                            fs0,
                            #[trigger] rs[mm].1,
                        ).subset_of(fs0[x as int]) by {
                            lemma_rules_first_member(fs0, rs, rs.len() as int, mm);
                        }
                    }
                }
            }
        }
        proof {
            Self::lemma_same_but_first(&g0, self);
            lemma_first_iter_len(keys, rl, kk + 1);
            if below(self.first_view(), first_iter(keys, rl, kk)) {
                assert(first_sound(keys, rl, self.first_view()));
            } else {
                assert(below(self.first_view(), first_iter(keys, rl, kk + 1)));
                assert(first_sound(keys, rl, self.first_view()));
            }
        }
        updated_first_set
    }
}

proof fn lemma_below_refl(a: Seq<Set<nat>>)
    ensures
        below(a, a),
{
}

proof fn lemma_below_trans(a: Seq<Set<nat>>, b: Seq<Set<nat>>, c: Seq<Set<nat>>)
    requires
        below(a, b),
        below(b, c),
    ensures
        below(a, c),
{
    assert forall|i: int| 0 <= i < a.len() implies #[trigger] a[i].subset_of(c[i]) by {
        assert(a[i].subset_of(b[i]));
        assert(b[i].subset_of(c[i]));
    }
}

/// Moving from the `kk`-th iterate to a later one only enlarges what the walks accumulate.
proof fn lemma_lift(
    keys: Seq<Symbol>,
    rl: Seq<RuleView>,
    kk: nat,
    kk2: nat,
    body: Seq<Symbol>,
    rs: Seq<RuleView>,
    m: int,
    k: int,
)
    requires
        kk <= kk2,
    ensures
        rules_first(first_iter(keys, rl, kk), rs, m).subset_of(rules_first(first_iter(keys, rl, kk2), rs, m)),
        union_upto(first_iter(keys, rl, kk), body, k).subset_of(union_upto(first_iter(keys, rl, kk2), body, k)),
        nullable_upto(first_iter(keys, rl, kk), body, k) ==> nullable_upto(first_iter(keys, rl, kk2), body, k),
        stop_from(first_iter(keys, rl, kk), body, 0) <= stop_from(first_iter(keys, rl, kk2), body, 0),
{
    let a = first_iter(keys, rl, kk);
    let b = first_iter(keys, rl, kk2);
    lemma_first_iter_grows(keys, rl, kk, kk2);
    lemma_rules_first_mono(a, b, rs, m);
    lemma_union_upto_mono(a, b, body, k, k);
    lemma_stop_mono(a, b, body, 0);
    if nullable_upto(a, body, k) {
        assert forall|i: int| 0 <= i < k implies #[trigger] set_at(b, body[i].id as int).contains(0) by {
            let j = body[i].id as int;
            assert(set_at(a, j).contains(0));
            if 0 <= j < a.len() {
                assert(a[j].subset_of(b[j]));
            }
        }
    }
}

proof fn lemma_rules_first_member(fs: Seq<Set<nat>>, rs: Seq<RuleView>, m: int, mm: int)
    requires
        0 <= mm < m <= rs.len(),
    ensures
        body_first(fs, rs[mm].1).subset_of(rules_first(fs, rs, m)),
    decreases m,
{
    if mm < m - 1 {
        lemma_rules_first_member(fs, rs, m - 1, mm);
    }
}

impl<R> Grammar<R> {
    /// `v` witnesses that the FIRST equations hold on a set of nonterminals that holds the start
    /// symbol (when it is a nonterminal) and every nonterminal in the bodies of their rules.
    pub open spec fn first_witness(&self, v: Set<nat>) -> bool {
        &&& self.start().symbol_type == SymbolType::Nonterminal ==> v.contains(self.start().id as nat)
        &&& forall|y: nat|
            #[trigger] v.contains(y) ==> self.is_nonterminal_id(y) && first_closed_at(
                self.first_view(),
                self.rules_of(y),
                v,
                y,
            )
    }

    /// The FIRST equations hold on every nonterminal reachable from the start symbol.
    pub open spec fn first_solved(&self) -> bool {
        exists|v: Set<nat>| self.first_witness(v)
    }

    /// The FIRST set of each nonterminal that some walk-closed set leaves out is empty.
    pub open spec fn first_unreached_empty(&self) -> bool {
        forall|i: int|
            0 <= i < self.first_view().len() && self.is_nonterminal_id(i as nat) && !in_every_walk(
                self.symbols(),
                self.rule_list(),
                self.start(),
                i as nat,
            ) ==> #[trigger] self.first_view()[i] == Set::<nat>::empty()
    }

    /// The FIRST set of each symbol that is not a nonterminal is that symbol alone.
    pub open spec fn first_of_terminals(&self) -> bool {
        forall|i: int|
            0 <= i < self.first_view().len() && !self.is_nonterminal_id(i as nat) ==> #[trigger] self.first_view()[i]
                == Set::<nat>::empty().insert(i as nat)
    }

    /// Sets the FIRST set of each symbol to the symbol itself, or to nothing for a nonterminal,
    /// then walks from the start symbol until a walk marks nothing; gives the number of walks.
    fn populate_first_sets(&mut self, symbol_domain: &SymbolDomain, Ghost(c): Ghost<Set<nat>>) -> (walks: Ghost<
        nat,
    >)
        requires
            old(self).first_sets@.len() == 0,
            symbol_domain.wf(),
            small_terminals(symbol_domain@),
            old(self).symbol_domain_size == symbol_domain@.len(),
            old(self).index_wf(),
            walk_closed(symbol_domain@, old(self).rule_list(), old(self).start(), c),
            known(symbol_domain@, old(self).start()),
        ensures
            final(self).first_wf(),
            final(self).symbols() == symbol_domain@,
            final(self).index_wf(),
            final(self).rule_list() == old(self).rule_list(),
            final(self).start() == old(self).start(),
            final(self).routines() == old(self).routines(),
            forall|r: RuleView| final(self).routine_ids(r) == old(self).routine_ids(r),
            final(self).follow_sets == old(self).follow_sets,
            final(self).first_of_terminals(),
            final(self).first_unreached_empty(),
            final(self).first_solved(),
            first_sound(final(self).symbols(), final(self).rule_list(), final(self).first_view()),
            ids_below(final(self).first_view(), symbol_domain@.len()),
            1 <= walks@ <= 1 + nonterminal_count(symbol_domain@, symbol_domain@.len() as int) * symbol_domain@.len(),
    {
        proof {
            symbol_domain.lemma_ids();
        }
        let symbols = symbol_domain.iter();
        let mut i: usize = 0;
        while i < symbols.len()
            invariant
                i <= symbols@.len(),
                symbols@ == symbol_domain@,
                small_terminals(symbols@),
                forall|j: int| 0 <= j < symbols@.len() ==> (#[trigger] symbols@[j]).id == j,
                self.first_sets@.len() == i,
                forall|j: int|
                    0 <= j < i ==> (#[trigger] self.first_sets@[j]).0 == symbols@[j]
                        && self.first_sets@[j].1.word_count() == 4
                        && self.first_sets@[j].1@ == if symbols@[j].symbol_type == SymbolType::Nonterminal {
                            Set::<nat>::empty()
                        } else {
                            Set::<nat>::empty().insert(j as nat)
                        },
                self.start_symbol == old(self).start_symbol,
                self.rules == old(self).rules,
                self.action_routines == old(self).action_routines,
                self.rules_to_routines_map == old(self).rules_to_routines_map,
                self.rules_by_head == old(self).rules_by_head,
                self.rules_by_body == old(self).rules_by_body,
                self.symbol_domain_size == old(self).symbol_domain_size,
                self.follow_sets == old(self).follow_sets,
                self.declarations == old(self).declarations,
            decreases symbols@.len() - i,
        {
            let symbol = symbols[i];
            let set = match symbol.symbol_type {
                SymbolType::Nonterminal => SymbolSet::new(),
                _ => SymbolSet::new().plus(symbol),
            };
            self.first_sets.push((symbol, set));
            i = i + 1;
        }
        proof {
            assert(self.symbols() =~= symbol_domain@);
            assert(self.index_wf());
            assert(self.walk_ok(c));
            assert(self.first_view() =~= first_init(self.symbols()));
            assert(below(self.first_view(), first_iter(self.symbols(), self.rule_list(), 0)));
            assert forall|j: int|
                0 <= j < self.first_view().len() && !self.is_nonterminal_id(j as nat) implies #[trigger] self.first_view()[j]
                == Set::<nat>::empty().insert(j as nat) by {
                assert(self.first_sets@[j].0 == symbols@[j]);
            }
        }
        let ghost g_start = *self;
        let ghost mut walks: nat = 0;
        loop
            invariant
                walks <= nonterminal_total(symbol_domain@, self.first_view(), symbol_domain@.len() as int),
                g_start.same_but_first(self),
                self.first_wf(),
                self.index_wf(),
                self.walk_ok(c),
                walk_closed(self.symbols(), self.rule_list(), self.start(), c),
                self.symbols() == symbol_domain@,
                self.has_symbol(self.start_symbol),
                self.first_of_terminals(),
                self.first_unreached_empty(),
                first_sound(self.symbols(), self.rule_list(), self.first_view()),
            ensures
                self.first_solved(),
                first_sound(self.symbols(), self.rule_list(), self.first_view()),
                walks <= nonterminal_total(symbol_domain@, self.first_view(), symbol_domain@.len() as int),
            decreases 256 * self.first_view().len() - total(self.first_view()),
        {
            let ghost g1 = *self;
            let mut updated = SymbolSet::new();
            let mut visited = SymbolSet::new();
            proof {
                assert(self.start_symbol == self.start());
            }
            self.traverse_first_sets(self.start_symbol, &mut visited, &mut updated, Ghost(c), Ghost(self.start()));
            proof {
                Self::lemma_same_but_first(&g1, self);
                Self::lemma_same_but_first(&g_start, &g1);
                let fs1 = g1.first_view();
                let fs2 = self.first_view();
                assert forall|j: int|
                    0 <= j < fs2.len() && self.is_nonterminal_id(j as nat) && !in_every_walk(
                        self.symbols(),
                        self.rule_list(),
                        self.start(),
                        j as nat,
                    ) implies #[trigger] fs2[j] == Set::<nat>::empty() by {
                    if fs2[j] != fs1[j] {
                        assert(updated@.contains(j as nat));
                        assert(visited@.contains(j as nat));
                        assert(every_walk_set(self.symbols(), self.rule_list(), self.start()).contains(j as nat));
                    }
                }
                assert forall|j: int|
                    0 <= j < fs2.len() && !self.is_nonterminal_id(j as nat) implies #[trigger] fs2[j]
                    == Set::<nat>::empty().insert(j as nat) by {
                    if fs2[j] != fs1[j] {
                        assert(updated@.contains(j as nat));
                        assert(visited@.contains(j as nat));
                    }
                }
                assert forall|j: int| 0 <= j < fs2.len() implies (#[trigger] fs2[j]).finite() && fs2[j].len() <= 256 by {
                    self.first_sets@[j].1.lemma_bounded();
                }
            }
            if updated.is_empty() {
                proof {
                    assert(updated@ =~= Set::<nat>::empty());
                    assert(self.first_witness(visited@));
                }
                break;
            }
            proof {
                assert(exists|e: nat| updated@.contains(e)) by {
                    if !(exists|e: nat| updated@.contains(e)) {
                        assert(updated@ =~= Set::<nat>::empty());
                    }
                }
                let e = choose|e: nat| updated@.contains(e);
                lemma_total_grows(g1.first_view(), self.first_view(), e as int);
                lemma_total_bound(self.first_view(), 256);
                assert(visited@.contains(e));
                assert(self.is_nonterminal_id(e));
                lemma_nonterminal_total_grows(
                    symbol_domain@,
                    g1.first_view(),
                    self.first_view(),
                    symbol_domain@.len() as int,
                    e as int,
                );
                walks = walks + 1;
            }
        }
        proof {
            let k = choose|k: nat| below(self.first_view(), first_iter(self.symbols(), self.rule_list(), k));
            lemma_first_iter_ids(self.symbols(), self.rule_list(), k);
            assert forall|i: int, e: nat| 0 <= i < self.first_view().len() && #[trigger] self.first_view()[i].contains(
                e,
            ) implies e < symbol_domain@.len() by {
                lemma_first_iter_len(self.symbols(), self.rule_list(), k);
                assert(self.first_view()[i].subset_of(first_iter(self.symbols(), self.rule_list(), k)[i]));
                assert(first_iter(self.symbols(), self.rule_list(), k)[i].contains(e));
            }
            lemma_ids_below_len(self.first_view(), symbol_domain@.len());
            lemma_nonterminal_total_bound(
                symbol_domain@,
                self.first_view(),
                symbol_domain@.len() as int,
                symbol_domain@.len(),
            );
        }
        Ghost(walks + 1)
    }
}

/// What may follow the symbols of `body` from the right, after `t` of them have been passed:
/// the FOLLOW set of the head to start with; then each symbol passed adds its FIRST set without
/// epsilon when it can derive the empty string, and replaces the suffix by its FIRST set when it
/// cannot.
pub open spec fn follow_suffix(fs: Seq<Set<nat>>, head_follow: Set<nat>, body: Seq<Symbol>, t: int) -> Set<nat>
    decreases t,
{
    if t <= 0 {
        head_follow
    } else {
        let s = body[body.len() - t];
        let prev = follow_suffix(fs, head_follow, body, t - 1);
        if fs[s.id as int].contains(0) {
            prev.union(fs[s.id as int].remove(0))
        } else {
            fs[s.id as int]
        }
    }
}

/// What a pass over the last `k` symbols of `body` adds to the FOLLOW set of the symbol with id
/// `i`, the head's FOLLOW set being `hf`: the suffix after each occurrence of that symbol.
pub open spec fn rule_gain(fs: Seq<Set<nat>>, hf: Set<nat>, body: Seq<Symbol>, k: int, i: nat) -> Set<nat> {
    Set::new(
        |e: nat|
            exists|t: int|
                0 <= t < k && body[body.len() - 1 - t].id == i && #[trigger] follow_suffix(fs, hf, body, t).contains(e),
    )
}

/// The FOLLOW sets `fw` after a pass of rule `r` over the last `k` symbols of its body.
pub open spec fn rule_applied(fs: Seq<Set<nat>>, fw: Seq<Set<nat>>, r: RuleView, k: int) -> Seq<Set<nat>> {
    Seq::new(fw.len(), |i: int| fw[i].union(rule_gain(fs, fw[r.0.id as int], r.1, k, i as nat)))
}

/// The ids whose set differs between `a` and `b`.
pub open spec fn changed(a: Seq<Set<nat>>, b: Seq<Set<nat>>) -> Set<nat> {
    Set::new(|i: nat| i < a.len() && i < b.len() && a[i as int] != b[i as int])
}

/// Applying a rule of a symbol that every walk meets to FOLLOW sets forced by the FOLLOW
/// equations gives sets that are still forced by them.
proof fn lemma_apply_sound(
    keys: Seq<Symbol>,
    rules: Seq<RuleView>,
    start: Symbol,
    fs: Seq<Set<nat>>,
    fw0: Seq<Set<nat>>,
    owner: nat,
    pos: int,
)
    requires
        0 <= pos < rules_for(keys, rules, owner).len(),
        in_every_walk(keys, rules, start, owner),
        follow_sound(keys, rules, start, fs, fw0),
        fw0.len() == keys.len(),
        known(keys, rules_for(keys, rules, owner)[pos].0),
    ensures
        follow_sound(
            keys,
            rules,
            start,
            fs,
            rule_applied(fs, fw0, rules_for(keys, rules, owner)[pos], rules_for(keys, rules, owner)[pos].1.len() as int),
        ),
{
    let r = rules_for(keys, rules, owner)[pos];
    let n = r.1.len() as int;
    let h = r.0.id as int;
    let w = rule_applied(fs, fw0, r, n);
    assert forall|cc: Set<nat>| #[trigger] walk_closed(keys, rules, start, cc) implies exists|k: nat|
        below(w, follow_iter(keys, rules, start, cc, fs, k)) by {
        let kc = choose|k: nat| below(fw0, follow_iter(keys, rules, start, cc, fs, k));
        let it0 = follow_iter(keys, rules, start, cc, fs, kc);
        let it1 = follow_iter(keys, rules, start, cc, fs, kc + 1);
        lemma_follow_iter_len(keys, rules, start, cc, fs, kc);
        lemma_follow_iter_grows(keys, rules, start, cc, fs, kc, kc + 1);
        assert(cc.contains(owner));
        assert(fw0[h].subset_of(it0[h]));
        assert(set_at(it0, h) == it0[h]);
        assert forall|i: int| 0 <= i < w.len() implies #[trigger] w[i].subset_of(it1[i]) by {
            assert(it1[i] == it0[i].union(follow_gain(keys, rules, cc, fs, it0, i as nat)));
            assert(fw0[i].subset_of(it0[i]));
            assert(it0[i].subset_of(it1[i]));
            assert forall|e: nat| #[trigger] rule_gain(fs, fw0[h], r.1, n, i as nat).contains(e) implies follow_gain(
                keys,
                rules,
                cc,
                fs,
                it0,
                i as nat,
            ).contains(e) by {
                let t = choose|t: int|
                    0 <= t < n && r.1[r.1.len() - 1 - t].id == i && #[trigger] follow_suffix(fs, fw0[h], r.1, t).contains(e);
                lemma_follow_suffix_mono(fs, fw0[h], set_at(it0, h), r.1, t);
                assert(follow_suffix(fs, set_at(it0, rules_for(keys, rules, owner)[pos].0.id as int), rules_for(keys, rules, owner)[pos].1, t).contains(e));
            }
        }
        assert(below(w, it1));
    }
}

proof fn lemma_rule_gain_step(fs: Seq<Set<nat>>, hf: Set<nat>, body: Seq<Symbol>, t: int, j: nat)
    requires
        0 <= t < body.len(),
    ensures
        rule_gain(fs, hf, body, t + 1, j) == rule_gain(fs, hf, body, t, j).union(
            if body[body.len() - 1 - t].id == j {
                follow_suffix(fs, hf, body, t)
            } else {
                Set::empty()
            },
        ),
{
    let a = rule_gain(fs, hf, body, t + 1, j);
    let b = rule_gain(fs, hf, body, t, j).union(
        if body[body.len() - 1 - t].id == j {
            follow_suffix(fs, hf, body, t)
        } else {
            Set::empty()
        },
    );
    assert forall|e: nat| a.contains(e) implies b.contains(e) by {
        let tt = choose|tt: int|
            0 <= tt < t + 1 && body[body.len() - 1 - tt].id == j && #[trigger] follow_suffix(fs, hf, body, tt).contains(e);
        if tt < t {
            assert(rule_gain(fs, hf, body, t, j).contains(e));
        }
    }
    assert forall|e: nat| b.contains(e) implies a.contains(e) by {
        if rule_gain(fs, hf, body, t, j).contains(e) {
            let tt = choose|tt: int|
                0 <= tt < t && body[body.len() - 1 - tt].id == j && #[trigger] follow_suffix(fs, hf, body, tt).contains(e);
            assert(follow_suffix(fs, hf, body, tt).contains(e));
        } else {
            assert(follow_suffix(fs, hf, body, t).contains(e));
        }
    }
    assert(a =~= b);
}

proof fn lemma_rule_gain_zero(fs: Seq<Set<nat>>, hf: Set<nat>, body: Seq<Symbol>, j: nat)
    ensures
        rule_gain(fs, hf, body, 0, j) == Set::<nat>::empty(),
{
    assert(rule_gain(fs, hf, body, 0, j) =~= Set::<nat>::empty());
}

/// Every symbol of `body` strictly between positions `i` and `j` has a FIRST set that holds
/// epsilon (id 0) under the sets `fs`: it can derive the empty string.
pub open spec fn nullable_between(fs: Seq<Set<nat>>, body: Seq<Symbol>, i: int, j: int) -> bool {
    forall|k: int| i < k < j ==> #[trigger] fs[body[k].id as int].contains(0)
}

/// Under FIRST sets `fs`, the FOLLOW sets `fw` hold what rule `r` says may follow each symbol
/// of its body: the FIRST set, without epsilon, of each later symbol that is reached past
/// symbols that all can derive the empty string; and the FOLLOW set of the head when all later
/// symbols can.
pub open spec fn follows_rule(fs: Seq<Set<nat>>, fw: Seq<Set<nat>>, r: RuleView) -> bool {
    &&& forall|i: int, j: int|
        0 <= i < j < r.1.len() && #[trigger] nullable_between(fs, r.1, i, j) ==> fs[r.1[j].id as int].remove(
            0,
        ).subset_of(fw[r.1[i].id as int])
    &&& forall|i: int|
        0 <= i < r.1.len() && #[trigger] nullable_between(fs, r.1, i, r.1.len() as int) ==> fw[r.0.id as int].subset_of(
            fw[r.1[i].id as int],
        )
}

/// What may follow the symbol at position `n - 1 - t` of `body` takes in the FIRST set, without
/// epsilon, of each later symbol `j` reached past symbols that can derive the empty string.
proof fn lemma_suffix_covers(fs: Seq<Set<nat>>, hf: Set<nat>, body: Seq<Symbol>, t: int, j: int)
    requires
        0 <= t < body.len(),
        body.len() - 1 - t < j < body.len(),
        nullable_between(fs, body, body.len() - 1 - t, j),
    ensures
        fs[body[j].id as int].remove(0).subset_of(follow_suffix(fs, hf, body, t)),
    decreases t,
{
    let n = body.len() as int;
    let i = n - 1 - t;
    let s = body[n - t];
    assert(s == body[i + 1]);
    let prev = follow_suffix(fs, hf, body, t - 1);
    assert(follow_suffix(fs, hf, body, t) == if fs[s.id as int].contains(0) {
        prev.union(fs[s.id as int].remove(0))
    } else {
        fs[s.id as int]
    });
    if j > i + 1 {
        assert(fs[body[i + 1].id as int].contains(0));
        lemma_suffix_covers(fs, hf, body, t - 1, j);
    }
}

/// What may follow the symbol at position `n - 1 - t` of `body` takes in the head's FOLLOW set
/// `hf` when every later symbol can derive the empty string.
proof fn lemma_suffix_head(fs: Seq<Set<nat>>, hf: Set<nat>, body: Seq<Symbol>, t: int)
    requires
        0 <= t < body.len(),
        nullable_between(fs, body, body.len() - 1 - t, body.len() as int),
    ensures
        hf.subset_of(follow_suffix(fs, hf, body, t)),
    decreases t,
{
    if t > 0 {
        let n = body.len() as int;
        let s = body[n - t];
        assert(fs[body[n - t].id as int].contains(0));
        lemma_suffix_head(fs, hf, body, t - 1);
        let prev = follow_suffix(fs, hf, body, t - 1);
        assert(follow_suffix(fs, hf, body, t) == prev.union(fs[s.id as int].remove(0)));
    }
}

proof fn lemma_closed_follows_pair(fs: Seq<Set<nat>>, fw: Seq<Set<nat>>, r: RuleView, i: int, j: int)
    requires
        rule_follow_closed(fs, fw, r),
        0 <= i < j < r.1.len(),
        nullable_between(fs, r.1, i, j),
    ensures
        fs[r.1[j].id as int].remove(0).subset_of(fw[r.1[i].id as int]),
{
    let n = r.1.len() as int;
    let t = n - 1 - i;
    let hf = fw[r.0.id as int];
    lemma_suffix_covers(fs, hf, r.1, t, j);
    assert(follow_suffix(fs, hf, r.1, t).subset_of(fw[r.1[r.1.len() - 1 - t].id as int]));
}

proof fn lemma_closed_follows_head(fs: Seq<Set<nat>>, fw: Seq<Set<nat>>, r: RuleView, i: int)
    requires
        rule_follow_closed(fs, fw, r),
        0 <= i < r.1.len(),
        nullable_between(fs, r.1, i, r.1.len() as int),
    ensures
        fw[r.0.id as int].subset_of(fw[r.1[i].id as int]),
{
    let n = r.1.len() as int;
    let t = n - 1 - i;
    let hf = fw[r.0.id as int];
    lemma_suffix_head(fs, hf, r.1, t);
    assert(follow_suffix(fs, hf, r.1, t).subset_of(fw[r.1[r.1.len() - 1 - t].id as int]));
}

/// A rule under which no FOLLOW set grows holds everything it says may follow its body symbols.
#[verifier::spinoff_prover]
proof fn lemma_closed_follows(fs: Seq<Set<nat>>, fw: Seq<Set<nat>>, r: RuleView)
    requires
        rule_follow_closed(fs, fw, r),
    ensures
        follows_rule(fs, fw, r),
{
    assert forall|i: int, j: int|
        0 <= i < j < r.1.len() && #[trigger] nullable_between(fs, r.1, i, j) implies fs[r.1[j].id as int].remove(
            0,
        ).subset_of(fw[r.1[i].id as int]) by {
        lemma_closed_follows_pair(fs, fw, r, i, j);
    }
    assert forall|i: int|
        0 <= i < r.1.len() && #[trigger] nullable_between(fs, r.1, i, r.1.len() as int) implies fw[r.0.id as int].subset_of(
            fw[r.1[i].id as int],
        ) by {
        lemma_closed_follows_head(fs, fw, r, i);
    }
}

/// Under FIRST sets `fs` and FOLLOW sets `fw`, rule `r` adds nothing to any FOLLOW set.
pub open spec fn rule_follow_closed(fs: Seq<Set<nat>>, fw: Seq<Set<nat>>, r: RuleView) -> bool {
    forall|t: int|
        0 <= t < r.1.len() ==> #[trigger] follow_suffix(fs, fw[r.0.id as int], r.1, t).subset_of(
            fw[r.1[r.1.len() - 1 - t].id as int],
        )
}

/// Under `fs` and `fw`, the FOLLOW equations hold for the rules `rs` of a visited symbol, and
/// every nonterminal in their bodies is in `v`.
pub open spec fn follow_closed_at(fs: Seq<Set<nat>>, fw: Seq<Set<nat>>, rs: Seq<RuleView>, v: Set<nat>) -> bool {
    forall|m: int|
        0 <= m < rs.len() ==> {
            &&& rule_follow_closed(fs, fw, #[trigger] rs[m])
            &&& forall|i: int|
                0 <= i < rs[m].1.len() && (#[trigger] rs[m].1[i]).symbol_type == SymbolType::Nonterminal
                    ==> v.contains(rs[m].1[i].id as nat)
        }
}

impl<R> Grammar<R> {
    /// `self` and `other` differ at most in the contents of their FOLLOW sets.
    pub closed spec fn same_but_follow(&self, other: &Grammar<R>) -> bool {
        &&& self.start_symbol == other.start_symbol
        &&& self.rules == other.rules
        &&& self.action_routines == other.action_routines
        &&& self.rules_to_routines_map == other.rules_to_routines_map
        &&& self.rules_by_head == other.rules_by_head
        &&& self.rules_by_body == other.rules_by_body
        &&& self.symbol_domain_size == other.symbol_domain_size
        &&& self.first_sets == other.first_sets
        &&& self.declarations == other.declarations
        &&& self.follow_sets@.len() == other.follow_sets@.len()
        &&& forall|i: int|
            0 <= i < self.follow_sets@.len() ==> (#[trigger] other.follow_sets@[i]).0
                == self.follow_sets@[i].0
    }

    proof fn lemma_same_but_follow(a: &Grammar<R>, b: &Grammar<R>)
        requires
            a.same_but_follow(b),
        ensures
            a.symbols() == b.symbols(),
            a.rule_list() == b.rule_list(),
            a.index_wf() == b.index_wf(),
            forall|c: Set<nat>| a.walk_ok(c) == b.walk_ok(c),
            a.first_view() == b.first_view(),
            a.first_wf() == b.first_wf(),
            a.start() == b.start(),
            a.routines() == b.routines(),
            forall|r: RuleView| a.routine_ids(r) == b.routine_ids(r),
            forall|x: nat| a.rules_of(x) == b.rules_of(x),
            forall|x: nat| a.is_nonterminal_id(x) == b.is_nonterminal_id(x),
    {
    }

    /// From `(fw0, v0, u0)` to the current state: only the FOLLOW sets changed, each grew, a set
    /// that changed is that of a symbol marked updated, every symbol newly marked updated has a
    /// strictly larger set, and newly visited symbols are nonterminals.
    pub closed spec fn follow_progress(
        &self,
        g0: &Grammar<R>,
        v0: Set<nat>,
        u0: Set<nat>,
        v: Set<nat>,
        u: Set<nat>,
    ) -> bool {
        let fw0 = g0.follow_view();
        let fw = self.follow_view();
        &&& g0.same_but_follow(self)
        &&& self.first_wf()
        &&& self.follow_wf()
        &&& v0.subset_of(v)
        &&& u0.subset_of(u)
        &&& forall|i: int| 0 <= i < fw.len() ==> #[trigger] fw0[i].subset_of(fw[i])
        &&& forall|i: int| 0 <= i < fw.len() && fw[i] != fw0[i] ==> u.contains(i as nat)
        &&& forall|x: nat| u.contains(x) && !u0.contains(x) ==> x < fw.len() && grew(fw0[x as int], fw[x as int])
        &&& forall|x: nat| v.contains(x) && !v0.contains(x) ==> self.is_nonterminal_id(x)
    }

    /// When nothing is marked updated, the FOLLOW sets are unchanged and the FOLLOW equations
    /// hold at every symbol newly visited since `b`.
    pub closed spec fn follow_quiet(&self, g0: &Grammar<R>, b: Set<nat>, v: Set<nat>, u: Set<nat>) -> bool {
        u == Set::<nat>::empty() ==> {
            &&& self.follow_view() == g0.follow_view()
            &&& forall|y: nat|
                v.contains(y) && !b.contains(y) ==> follow_closed_at(
                    self.first_view(),
                    self.follow_view(),
                    self.rules_of(y),
                    v,
                )
        }
    }

    proof fn lemma_follow_refl(&self, v: Set<nat>, u: Set<nat>)
        requires
            self.first_wf(),
            self.follow_wf(),
        ensures
            self.follow_progress(self, v, u, v, u),
            self.follow_quiet(self, v, v, u),
    {
    }

    proof fn lemma_follow_trans(
        g0: &Grammar<R>,
        g1: &Grammar<R>,
        g2: &Grammar<R>,
        b: Set<nat>,
        v0: Set<nat>,
        u0: Set<nat>,
        v1: Set<nat>,
        u1: Set<nat>,
        v2: Set<nat>,
        u2: Set<nat>,
    )
        requires
            g1.follow_progress(g0, v0, u0, v1, u1),
            g2.follow_progress(g1, v1, u1, v2, u2),
            g1.follow_quiet(g0, b, v1, u1),
            g2.follow_quiet(g1, v1, v2, u2),
            b.subset_of(v1),
        ensures
            g2.follow_progress(g0, v0, u0, v2, u2),
            g2.follow_quiet(g0, b, v2, u2),
    {
        let fw0 = g0.follow_view();
        let fw1 = g1.follow_view();
        let fw2 = g2.follow_view();
        Self::lemma_same_but_follow(g1, g2);
        Self::lemma_same_but_follow(g0, g1);
        assert forall|i: int| 0 <= i < fw2.len() implies #[trigger] fw0[i].subset_of(fw2[i]) by {
            assert(fw0[i].subset_of(fw1[i]));
            assert(fw1[i].subset_of(fw2[i]));
        }
        assert forall|x: nat| u2.contains(x) && !u0.contains(x) implies x < fw2.len() && grew(
            fw0[x as int],
            fw2[x as int],
        ) by {
            if u1.contains(x) {
                assert(grew(fw0[x as int], fw1[x as int]));
                assert(fw1[x as int].subset_of(fw2[x as int]));
            } else {
                assert(grew(fw1[x as int], fw2[x as int]));
                assert(fw0[x as int].subset_of(fw1[x as int]));
            }
        }
        assert forall|i: int| 0 <= i < fw2.len() && fw2[i] != fw0[i] implies u2.contains(i as nat) by {
            if fw1[i] != fw0[i] {
            } else {
                assert(fw2[i] != fw1[i]);
            }
        }
        if u2 == Set::<nat>::empty() {
            assert(u1 =~= Set::<nat>::empty());
            assert forall|y: nat| v2.contains(y) && !b.contains(y) implies follow_closed_at(
                g2.first_view(),
                fw2,
                g2.rules_of(y),
                v2,
            ) by {
                if v1.contains(y) {
                    assert(follow_closed_at(g1.first_view(), fw1, g1.rules_of(y), v1));
                }
            }
        }
    }
}

impl<R> Grammar<R> {
    /// Passes the body of `rule` from the right, adding to the FOLLOW set of each body symbol
    /// what may follow it: the head's FOLLOW set and the FIRST sets of the symbols after it, up
    /// to the first that cannot derive the empty string. Marks each symbol whose set grew.
    fn apply_rule_to_follow_sets(
        &mut self,
        rule: &GrammarRule,
        updated: &mut SymbolSet,
        Ghost(v): Ghost<Set<nat>>,
    )
        requires
            old(self).first_wf(),
            old(self).follow_wf(),
            known(old(self).symbols(), rule@.0),
            forall|j: int|
                0 <= j < rule@.1.len() ==> known(old(self).symbols(), #[trigger] rule@.1[j]) && rule@.1[j].id
                    < 256,
            old(updated).word_count() == 4,
        ensures
            final(self).follow_progress(old(self), v, old(updated)@, v, final(updated)@),
            final(updated)@ == Set::<nat>::empty() ==> final(self).follow_view() == old(self).follow_view()
                && rule_follow_closed(old(self).first_view(), old(self).follow_view(), rule@),
            final(self).follow_view() == rule_applied(
                old(self).first_view(),
                old(self).follow_view(),
                rule@,
                rule@.1.len() as int,
            ),
            final(updated)@ == old(updated)@.union(changed(old(self).follow_view(), final(self).follow_view())),
            final(updated).word_count() == 4,
    {
        let ghost g0 = *self;
        let ghost fs = self.first_view();
        let ghost fw0 = self.follow_view();
        let ghost u0 = updated@;
        let ghost body = rule.body@;
        proof {
            self.lemma_follow_refl(v, u0);
        }
        let ghost keys = g0.symbols();
        let ghost rl = g0.rule_list();
        let ghost head = rule@.0;
        let mut suffix_follow_set = self.follow_set(rule.head);
        let n = rule.body.len();
        proof {
            assert forall|j: int| 0 <= j < body.len() implies known(g0.symbols(), #[trigger] body[j]) && body[j].id
                < 256 by {
                assert(body[j] == rule@.1[j]);
            }
            assert(follow_suffix(fs, fw0[rule@.0.id as int], body, 0) == fw0[rule@.0.id as int]);
            assert forall|j: int| 0 <= j < fw0.len() implies #[trigger] rule_applied(fs, fw0, rule@, 0)[j] == fw0[j] by {
                lemma_rule_gain_zero(fs, fw0[rule@.0.id as int], body, j as nat);
                assert(rule_applied(fs, fw0, rule@, 0)[j] =~= fw0[j]);
            }
            assert(rule_applied(fs, fw0, rule@, 0) =~= fw0);
            assert(changed(fw0, fw0) =~= Set::<nat>::empty());
            assert(u0.union(changed(fw0, fw0)) =~= u0);
        }
        let mut t: usize = 0;
        while t < n
            invariant
                t <= n,
                n == body.len(),
                body == rule@.1,
                g0 == *old(self),
                fs == g0.first_view(),
                fw0 == g0.follow_view(),
                u0 == old(updated)@,
                g0.first_wf(),
                forall|j: int| 0 <= j < body.len() ==> known(g0.symbols(), #[trigger] body[j]) && body[j].id < 256,
                self.follow_progress(&g0, v, u0, v, updated@),
                keys == g0.symbols(),
                rl == g0.rule_list(),
                head == rule@.0,
                known(keys, head),
                suffix_follow_set.word_count() == 4,
                updated.word_count() == 4,
                suffix_follow_set@ == follow_suffix(fs, fw0[head.id as int], body, t as int),
                self.follow_view() == rule_applied(fs, fw0, rule@, t as int),
                updated@ == u0.union(changed(fw0, self.follow_view())),
                updated@ == Set::<nat>::empty() ==> {
                    &&& self.follow_view() == fw0
                    &&& suffix_follow_set@ == follow_suffix(fs, fw0[rule@.0.id as int], body, t as int)
                    &&& forall|tt: int|
                        0 <= tt < t ==> #[trigger] follow_suffix(fs, fw0[rule@.0.id as int], body, tt).subset_of(
                            fw0[body[body.len() - 1 - tt].id as int],
                        )
                },
            decreases n - t,
        {
            let body_symbol = rule.body[n - 1 - t];
            let i = body_symbol.id as usize;
            let ghost g1 = *self;
            let ghost u1 = updated@;
            proof {
                Self::lemma_same_but_follow(&g0, self);
                assert(known(g0.symbols(), body[n - 1 - t]));
            }
            let ghost suffix_t = suffix_follow_set@;
            if !suffix_follow_set.is_subset(&self.follow_sets[i].1) {
                self.follow_sets[i].1.extend(&suffix_follow_set);
                updated.insert(body_symbol);
                proof {
                    let fw1 = g1.follow_view();
                    assert(self.follow_view() =~= fw1.update(i as int, fw1[i as int].union(suffix_follow_set@)));
                    let e = choose|e: nat| suffix_follow_set@.contains(e) && !fw1[i as int].contains(e);
                    assert(self.follow_progress(&g0, v, u0, v, updated@)) by {
                        let fw = self.follow_view();
                        assert forall|j: int| 0 <= j < fw.len() implies #[trigger] fw0[j].subset_of(fw[j]) by {
                            assert(fw0[j].subset_of(fw1[j]));
                        }
                        assert forall|x: nat| updated@.contains(x) && !u0.contains(x) implies x < fw.len() && grew(
                            fw0[x as int],
                            fw[x as int],
                        ) by {
                            if x != i {
                                assert(u1.contains(x));
                            } else {
                                assert(fw[x as int].contains(e));
                                if fw0[x as int].contains(e) {
                                    assert(fw0[x as int].subset_of(fw1[x as int]));
                                }
                            }
                        }
                        assert forall|j: int| 0 <= j < fw.len() && fw[j] != fw0[j] implies updated@.contains(j as nat) by {
                            if j != i {
                                assert(fw[j] == fw1[j]);
                            }
                        }
                    }
                }
            }
            proof {
                let fw1 = g1.follow_view();
                let fwn = self.follow_view();
                let hf = fw0[head.id as int];
                Self::lemma_same_but_follow(&g0, self);
                assert(body[body.len() - 1 - t] == body_symbol);
                assert(fw1 == rule_applied(fs, fw0, rule@, t as int));
                assert forall|j: int| 0 <= j < fwn.len() implies #[trigger] fwn[j] == rule_applied(
                    fs,
                    fw0,
                    rule@,
                    t + 1,
                )[j] by {
                    lemma_rule_gain_step(fs, hf, body, t as int, j as nat);
                    assert(rule_applied(fs, fw0, rule@, t + 1)[j] == fw0[j].union(rule_gain(fs, hf, body, t + 1, j as nat)));
                    assert(fw1[j] == fw0[j].union(rule_gain(fs, hf, body, t as int, j as nat)));
                    if j == i {
                        assert(fwn[j] =~= fw1[j].union(suffix_t));
                    } else {
                        assert(fwn[j] == fw1[j]);
                    }
                    assert(fwn[j] =~= rule_applied(fs, fw0, rule@, t + 1)[j]);
                }
                assert(fwn =~= rule_applied(fs, fw0, rule@, t + 1));
                assert forall|j: nat| #[trigger] changed(fw0, fwn).contains(j) == (changed(fw0, fw1).contains(j) || (
                fwn != fw1 && j == i)) by {
                    if fwn != fw1 && j == i {
                        let e = choose|e: nat| suffix_t.contains(e) && !fw1[i as int].contains(e);
                        assert(fwn[i as int].contains(e));
                        assert(fw0[i as int].subset_of(fw1[i as int]));
                    }
                    if j < fwn.len() && j != i {
                        assert(fwn[j as int] == fw1[j as int]);
                    }
                }
                if fwn != fw1 {
                    assert(updated@ =~= u0.union(changed(fw0, fwn)));
                } else {
                    assert(changed(fw0, fwn) =~= changed(fw0, fw1));
                }
            }
            let symbol_first_set = self.first_set(body_symbol);
            if symbol_first_set.contains(Symbol::epsilon()) {
                suffix_follow_set.extend(&symbol_first_set.minus(Symbol::epsilon()));
            } else {
                suffix_follow_set = symbol_first_set;
            }
            proof {
                Self::lemma_same_but_follow(&g0, self);
                assert(body[body.len() - (t + 1)] == body_symbol);
                assert(suffix_follow_set@ =~= follow_suffix(fs, fw0[rule@.0.id as int], body, t + 1));
                if updated@ == Set::<nat>::empty() {
                    assert(u1 =~= Set::<nat>::empty());
                }
            }
            t += 1;
        }
    }

    /// Walks the productions from `symbol`, applying each rule it meets to the FOLLOW sets.
    /// The nonterminals it newly visits are exactly those reached from `symbol` through symbols
    /// not visited before, and it applies the rules of each of them; started with nothing
    /// visited, it visits exactly the nonterminals `symbol` reaches. Started at the start
    /// symbol, it reaches every rule whose head the grammar can derive.
    fn traverse_follow_sets(
        &mut self,
        symbol: Symbol,
        visited: &mut SymbolSet,
        updated: &mut SymbolSet,
        Ghost(c): Ghost<Set<nat>>,
    )
        requires
            old(self).first_wf(),
            old(self).follow_wf(),
            old(self).index_wf(),
            old(self).walk_ok(c),
            old(self).has_symbol(symbol),
            symbol.symbol_type == SymbolType::Nonterminal ==> c.contains(symbol.id as nat),
            symbol.symbol_type == SymbolType::Nonterminal ==> in_every_walk(
                old(self).symbols(),
                old(self).rule_list(),
                old(self).start(),
                symbol.id as nat,
            ),
            follow_sound(
                old(self).symbols(),
                old(self).rule_list(),
                old(self).start(),
                old(self).first_view(),
                old(self).follow_view(),
            ),
            old(visited)@.subset_of(every_walk_set(old(self).symbols(), old(self).rule_list(), old(self).start())),
            old(visited).word_count() == 4,
            old(updated).word_count() == 4,
        ensures
            final(visited)@.subset_of(every_walk_set(final(self).symbols(), final(self).rule_list(), final(self).start())),
            follow_sound(
                final(self).symbols(),
                final(self).rule_list(),
                final(self).start(),
                final(self).first_view(),
                final(self).follow_view(),
            ),
            final(self).follow_progress(old(self), old(visited)@, old(updated)@, final(visited)@, final(updated)@),
            final(self).follow_quiet(old(self), old(visited)@, final(visited)@, final(updated)@),
            final(visited).word_count() == 4,
            final(updated).word_count() == 4,
            symbol.symbol_type == SymbolType::Nonterminal ==> final(visited)@.contains(symbol.id as nat),
            final(visited)@.difference(old(visited)@).subset_of(
                every_walk_set(old(self).symbols(), old(self).rule_list(), symbol),
            ),
            bodies_in(
                old(self).symbols(),
                old(self).rule_list(),
                final(visited)@.difference(old(visited)@),
                final(visited)@,
            ),
            old(visited)@ == Set::<nat>::empty() && symbol.symbol_type == SymbolType::Nonterminal
                ==> final(visited)@ == every_walk_set(old(self).symbols(), old(self).rule_list(), symbol),
        decreases 256 - old(visited)@.len(),
    {
        let ghost g0 = *self;
        let ghost v0 = visited@;
        let ghost u0 = updated@;
        let ghost x = symbol.id as nat;
        let ghost fs = self.first_view();
        let ghost fw0 = self.follow_view();
        proof {
            self.lemma_follow_refl(v0, u0);
        }
        if symbol.symbol_type != SymbolType::Nonterminal || visited.contains(symbol) {
            proof {
                assert(visited@.difference(v0) =~= Set::<nat>::empty());
            }
            return;
        }
        proof {
            assert(c.contains(x));
            assert(x < 256);
        }
        visited.insert(symbol);
        let ghost v1 = visited@;
        proof {
            assert(self.follow_progress(&g0, v0, u0, v1, u0));
            assert(visited@.difference(v1) =~= Set::<nat>::empty());
            lemma_in_own_walk(g0.symbols(), g0.rule_list(), symbol);
            assert(visited@.difference(v0).subset_of(every_walk_set(g0.symbols(), g0.rule_list(), symbol)));
        }
        let rules = self.rule_by_head(symbol);
        let ghost rs = rule_views(rules@);
        let mut m: usize = 0;
        while m < rules.len()
            invariant
                m <= rs.len(),
                rs == rule_views(rules@),
                rs == g0.rules_of(x),
                g0 == *old(self),
                fs == g0.first_view(),
                fw0 == g0.follow_view(),
                v0 == old(visited)@,
                u0 == old(updated)@,
                x == symbol.id,
                !v0.contains(x),
                v1 == v0.insert(x),
                g0.first_wf(),
                g0.follow_wf(),
                g0.index_wf(),
                g0.walk_ok(c),
                c.contains(x),
                v1.subset_of(visited@),
                self.follow_progress(&g0, v0, u0, visited@, updated@),
                self.follow_quiet(&g0, v1, visited@, updated@),
                visited.word_count() == 4,
                updated.word_count() == 4,
                in_every_walk(g0.symbols(), g0.rule_list(), g0.start(), x),
                visited@.subset_of(every_walk_set(g0.symbols(), g0.rule_list(), g0.start())),
                follow_sound(self.symbols(), self.rule_list(), self.start(), self.first_view(), self.follow_view()),
                visited@.difference(v0).subset_of(every_walk_set(g0.symbols(), g0.rule_list(), symbol)),
                bodies_in(g0.symbols(), g0.rule_list(), visited@.difference(v1), visited@),
                forall|mm: int, i: int|
                    0 <= mm < m && 0 <= i < rs[mm].1.len() && (#[trigger] rs[mm].1[i]).symbol_type
                        == SymbolType::Nonterminal ==> visited@.contains(rs[mm].1[i].id as nat),
                symbol == g0.symbols()[x as int],
                updated@ == Set::<nat>::empty() ==> forall|mm: int|
                    0 <= mm < m ==> {
                        &&& rule_follow_closed(fs, fw0, #[trigger] rs[mm])
                        &&& forall|i: int|
                            0 <= i < rs[mm].1.len() && (#[trigger] rs[mm].1[i]).symbol_type
                                == SymbolType::Nonterminal ==> visited@.contains(rs[mm].1[i].id as nat)
                    },
            decreases rs.len() - m,
        {
            let ghost body = rs[m as int].1;
            let ghost g1 = *self;
            let ghost u1 = updated@;
            proof {
                Self::lemma_same_but_follow(&g0, self);
                g0.lemma_walk(c, x, m as int, 0);
                assert forall|j: int| 0 <= j < rules@[m as int]@.1.len() implies known(
                    self.symbols(),
                    #[trigger] rules@[m as int]@.1[j],
                ) && rules@[m as int]@.1[j].id < 256 by {
                    g0.lemma_walk(c, x, m as int, j);
                }
            }
            self.apply_rule_to_follow_sets(&rules[m], updated, Ghost(visited@));
            proof {
                Self::lemma_same_but_follow(&g0, &g1);
                Self::lemma_same_but_follow(&g0, self);
                assert(rules@[m as int]@ == rs[m as int]);
                lemma_apply_sound(
                    g0.symbols(),
                    g0.rule_list(),
                    g0.start(),
                    fs,
                    g1.follow_view(),
                    x,
                    m as int,
                );
                assert(self.follow_quiet(&g1, visited@, visited@, updated@));
                Self::lemma_follow_trans(&g0, &g1, self, v1, v0, u0, visited@, u1, visited@, updated@);
                if updated@ == Set::<nat>::empty() {
                    assert(u1 =~= Set::<nat>::empty());
                    assert(g1.follow_view() == fw0);
                    Self::lemma_same_but_follow(&g0, &g1);
                    assert(rules@[m as int]@ == rs[m as int]);
                }
            }
            let mut k: usize = 0;
            while k < rules[m].body.len()
                invariant
                    m < rs.len(),
                    k <= body.len(),
                    body == rs[m as int].1,
                    body == rules@[m as int].body@,
                    rs == rule_views(rules@),
                    rs == g0.rules_of(x),
                    g0 == *old(self),
                    fs == g0.first_view(),
                    fw0 == g0.follow_view(),
                    v0 == old(visited)@,
                    u0 == old(updated)@,
                    x == symbol.id,
                    !v0.contains(x),
                    v1 == v0.insert(x),
                    g0.first_wf(),
                    g0.follow_wf(),
                    g0.index_wf(),
                    g0.walk_ok(c),
                c.contains(x),
                    v1.subset_of(visited@),
                    self.follow_progress(&g0, v0, u0, visited@, updated@),
                    self.follow_quiet(&g0, v1, visited@, updated@),
                    visited.word_count() == 4,
                    updated.word_count() == 4,
                    in_every_walk(g0.symbols(), g0.rule_list(), g0.start(), x),
                    visited@.subset_of(every_walk_set(g0.symbols(), g0.rule_list(), g0.start())),
                    follow_sound(self.symbols(), self.rule_list(), self.start(), self.first_view(), self.follow_view()),
                    visited@.difference(v0).subset_of(every_walk_set(g0.symbols(), g0.rule_list(), symbol)),
                    bodies_in(g0.symbols(), g0.rule_list(), visited@.difference(v1), visited@),
                    forall|mm: int, i: int|
                        0 <= mm < m && 0 <= i < rs[mm].1.len() && (#[trigger] rs[mm].1[i]).symbol_type
                            == SymbolType::Nonterminal ==> visited@.contains(rs[mm].1[i].id as nat),
                    forall|i: int|
                        0 <= i < k && (#[trigger] body[i]).symbol_type == SymbolType::Nonterminal
                            ==> visited@.contains(body[i].id as nat),
                    symbol == g0.symbols()[x as int],
                    updated@ == Set::<nat>::empty() ==> {
                        &&& rule_follow_closed(fs, fw0, rs[m as int])
                        &&& forall|i: int|
                            0 <= i < k && (#[trigger] body[i]).symbol_type == SymbolType::Nonterminal
                                ==> visited@.contains(body[i].id as nat)
                        &&& forall|mm: int|
                            0 <= mm < m ==> {
                                &&& rule_follow_closed(fs, fw0, #[trigger] rs[mm])
                                &&& forall|i: int|
                                    0 <= i < rs[mm].1.len() && (#[trigger] rs[mm].1[i]).symbol_type
                                        == SymbolType::Nonterminal ==> visited@.contains(rs[mm].1[i].id as nat)
                            }
                    },
                decreases body.len() - k,
            {
                let body_symbol = rules[m].body[k];
                let ghost g2 = *self;
                let ghost vb = visited@;
                let ghost ub = updated@;
                proof {
                    g0.lemma_walk(c, x, m as int, k as int);
                    Self::lemma_same_but_follow(&g0, self);
                    if body_symbol.symbol_type == SymbolType::Nonterminal {
                        lemma_every_walk_body(g0.symbols(), g0.rule_list(), g0.start(), x, m as int, k as int);
                    }
                    visited.lemma_bounded();
                    v0.lemma_subset_not_in_lt(visited@, x);
                }
                self.traverse_follow_sets(body_symbol, visited, updated, Ghost(c));
                proof {
                    let keys = g0.symbols();
                    let rl = g0.rule_list();
                    assert(body[k as int] == body_symbol);
                    if body_symbol.symbol_type == SymbolType::Nonterminal {
                        lemma_in_own_walk(keys, rl, symbol);
                        lemma_every_walk_body(keys, rl, symbol, x, m as int, k as int);
                        assert forall|y: nat| visited@.difference(v0).contains(y) implies every_walk_set(
                            keys,
                            rl,
                            symbol,
                        ).contains(y) by {
                            if !vb.contains(y) {
                                assert(every_walk_set(keys, rl, body_symbol).contains(y));
                                lemma_walk_trans(keys, rl, symbol, body_symbol, y);
                            }
                        }
                    } else {
                        assert(walk_closed(keys, rl, body_symbol, Set::<nat>::empty()));
                        assert forall|y: nat| visited@.contains(y) implies vb.contains(y) by {
                            if !vb.contains(y) {
                                assert(every_walk_set(keys, rl, body_symbol).contains(y));
                                assert(in_every_walk(keys, rl, body_symbol, y));
                            }
                        }
                        assert(visited@ =~= vb);
                    }
                    lemma_bodies_in_grow(keys, rl, vb.difference(v1), vb, visited@.difference(vb), visited@);
                    assert(visited@.difference(v1) =~= vb.difference(v1).union(visited@.difference(vb)));
                    assert(vb.subset_of(visited@));
                }
                proof {
                    Self::lemma_follow_trans(&g0, &g2, self, v1, v0, u0, vb, ub, visited@, updated@);
                    if updated@ == Set::<nat>::empty() {
                        assert(ub =~= Set::<nat>::empty());
                    }
                }
                k += 1;
            }
            m += 1;
        }
        proof {
            if updated@ == Set::<nat>::empty() {
                Self::lemma_same_but_follow(&g0, self);
                assert(follow_closed_at(self.first_view(), self.follow_view(), self.rules_of(x), visited@));
            }
            let keys = g0.symbols();
            let rl = g0.rule_list();
            assert(visited@.difference(v0) =~= visited@.difference(v1).insert(x));
            assert(bodies_in(keys, rl, visited@.difference(v0), visited@));
            if v0 == Set::<nat>::empty() {
                lemma_visited_exact(keys, rl, symbol, c, visited@);
            }
        }
    }
}

impl<R> Grammar<R> {
    /// `v` witnesses that the FOLLOW equations hold on a set of nonterminals that holds the start
    /// symbol (when it is a nonterminal) and every nonterminal in the bodies of their rules.
    pub open spec fn follow_witness(&self, v: Set<nat>) -> bool {
        &&& self.start().symbol_type == SymbolType::Nonterminal ==> v.contains(self.start().id as nat)
        &&& v.subset_of(every_walk_set(self.symbols(), self.rule_list(), self.start()))
        &&& forall|y: nat|
            #[trigger] v.contains(y) ==> self.is_nonterminal_id(y) && follow_closed_at(
                self.first_view(),
                self.follow_view(),
                self.rules_of(y),
                v,
            )
    }

    /// The FOLLOW equations hold on every nonterminal reachable from the start symbol.
    pub open spec fn follow_solved(&self) -> bool {
        exists|v: Set<nat>| self.follow_witness(v)
    }

    /// Sets the FOLLOW set of the start symbol to end of input and the others to nothing, then
    /// walks from the start symbol until a walk marks nothing; gives the number of walks.
    fn populate_follow_sets(&mut self, symbol_domain: &SymbolDomain, Ghost(c): Ghost<Set<nat>>) -> (walks: Ghost<
        nat,
    >)
        requires
            old(self).follow_sets@.len() == 0,
            ids_below(old(self).first_view(), symbol_domain@.len()),
            old(self).first_wf(),
            old(self).symbols() == symbol_domain@,
            old(self).index_wf(),
            old(self).walk_ok(c),
            walk_closed(old(self).symbols(), old(self).rule_list(), old(self).start(), c),
            old(self).has_symbol(old(self).start()),
            symbol_domain.wf(),
        ensures
            final(self).first_wf(),
            final(self).follow_wf(),
            final(self).symbols() == old(self).symbols(),
            final(self).first_view() == old(self).first_view(),
            final(self).index_wf(),
            final(self).rule_list() == old(self).rule_list(),
            final(self).start() == old(self).start(),
            final(self).routines() == old(self).routines(),
            forall|r: RuleView| final(self).routine_ids(r) == old(self).routine_ids(r),
            final(self).follow_view()[old(self).start().id as int].contains(1),
            final(self).follow_solved(),
            follow_sound(final(self).symbols(), final(self).rule_list(), final(self).start(), final(self).first_view(), final(self).follow_view()),
            1 <= walks@ <= 1 + symbol_domain@.len() * symbol_domain@.len(),
    {
        proof {
            symbol_domain.lemma_ids();
        }
        let symbols = symbol_domain.iter();
        let mut i: usize = 0;
        while i < symbols.len()
            invariant
                i <= symbols@.len(),
                symbols@ == symbol_domain@,
                symbols@ == old(self).symbols(),
                self.follow_sets@.len() == i,
                forall|j: int|
                    0 <= j < i ==> (#[trigger] self.follow_sets@[j]).0 == symbols@[j]
                        && self.follow_sets@[j].1.word_count() == 4
                        && self.follow_sets@[j].1@ == if symbols@[j] == self.start_symbol {
                            Set::<nat>::empty().insert(1)
                        } else {
                            Set::<nat>::empty()
                        },
                self.start_symbol == old(self).start_symbol,
                self.rules == old(self).rules,
                self.action_routines == old(self).action_routines,
                self.rules_to_routines_map == old(self).rules_to_routines_map,
                self.rules_by_head == old(self).rules_by_head,
                self.rules_by_body == old(self).rules_by_body,
                self.symbol_domain_size == old(self).symbol_domain_size,
                self.first_sets == old(self).first_sets,
                self.declarations == old(self).declarations,
            decreases symbols@.len() - i,
        {
            let symbol = symbols[i];
            let set = if symbol == self.start_symbol {
                SymbolSet::new().plus(Symbol::eof())
            } else {
                SymbolSet::new()
            };
            self.follow_sets.push((symbol, set));
            i = i + 1;
        }
        let ghost g_start = *self;
        proof {
            assert(self.follow_wf());
            assert(self.follow_view() =~= follow_init(self.symbols(), self.start()));
            assert forall|cc: Set<nat>| #[trigger] walk_closed(self.symbols(), self.rule_list(), self.start(), cc)
                implies exists|k: nat| below(self.follow_view(), follow_iter(self.symbols(), self.rule_list(), self.start(), cc, self.first_view(), k)) by {
                assert(below(self.follow_view(), follow_iter(self.symbols(), self.rule_list(), self.start(), cc, self.first_view(), 0)));
            }
            assert forall|cc: Set<nat>| #[trigger] walk_closed(self.symbols(), self.rule_list(), self.start(), cc)
                && self.start().symbol_type == SymbolType::Nonterminal implies cc.contains(self.start().id as nat) by {}
            assert(self.follow_view()[self.start().id as int].contains(1));
            assert(g_start.same_but_follow(self));
        }
        let ghost mut walks: nat = 0;
        loop
            invariant
                walks <= total(self.follow_view()),
                g_start.same_but_follow(self),
                old(self).symbols() == g_start.symbols(),
                old(self).first_view() == g_start.first_view(),
                old(self).rule_list() == g_start.rule_list(),
                old(self).start() == g_start.start(),
                old(self).routines() == g_start.routines(),
                forall|r: RuleView| old(self).routine_ids(r) == g_start.routine_ids(r),
                self.first_wf(),
                self.follow_wf(),
                self.index_wf(),
                self.walk_ok(c),
                walk_closed(self.symbols(), self.rule_list(), self.start(), c),
                self.has_symbol(self.start_symbol),
                self.follow_view()[old(self).start().id as int].contains(1),
                follow_sound(self.symbols(), self.rule_list(), self.start(), self.first_view(), self.follow_view()),
            ensures
                self.follow_solved(),
                follow_sound(self.symbols(), self.rule_list(), self.start(), self.first_view(), self.follow_view()),
                walks <= total(self.follow_view()),
            decreases 256 * self.follow_view().len() - total(self.follow_view()),
        {
            let ghost g1 = *self;
            let mut updated = SymbolSet::new();
            let mut visited = SymbolSet::new();
            proof {
                assert(self.start_symbol == self.start());
            }
            self.traverse_follow_sets(self.start_symbol, &mut visited, &mut updated, Ghost(c));
            proof {
                Self::lemma_same_but_follow(&g1, self);
                Self::lemma_same_but_follow(&g_start, &g1);
                let fw2 = self.follow_view();
                assert(g1.follow_view()[old(self).start().id as int].subset_of(fw2[old(self).start().id as int]));
                assert forall|j: int| 0 <= j < fw2.len() implies (#[trigger] fw2[j]).finite() && fw2[j].len() <= 256 by {
                    self.follow_sets@[j].1.lemma_bounded();
                }
            }
            if updated.is_empty() {
                proof {
                    assert(updated@ =~= Set::<nat>::empty());
                    assert(self.follow_witness(visited@));
                }
                break;
            }
            proof {
                assert(exists|e: nat| updated@.contains(e)) by {
                    if !(exists|e: nat| updated@.contains(e)) {
                        assert(updated@ =~= Set::<nat>::empty());
                    }
                }
                let e = choose|e: nat| updated@.contains(e);
                lemma_total_grows(g1.follow_view(), self.follow_view(), e as int);
                lemma_total_bound(self.follow_view(), 256);
                walks = walks + 1;
            }
        }
        proof {
            let keys = self.symbols();
            let fw = self.follow_view();
            let k = choose|k: nat| below(fw, follow_iter(keys, self.rule_list(), self.start(), c, self.first_view(), k));
            let it = follow_iter(keys, self.rule_list(), self.start(), c, self.first_view(), k);
            lemma_follow_iter_ids(keys, self.rule_list(), self.start(), c, self.first_view(), k);
            lemma_follow_iter_len(keys, self.rule_list(), self.start(), c, self.first_view(), k);
            assert forall|i: int, e: nat| 0 <= i < fw.len() && #[trigger] fw[i].contains(e) implies e < keys.len() by {
                assert(fw[i].subset_of(it[i]));
                assert(it[i].contains(e));
            }
            lemma_ids_below_len(fw, keys.len());
            lemma_total_bound(fw, keys.len());
            assert(keys.len() * fw.len() == symbol_domain@.len() * symbol_domain@.len());
        }
        Ghost(walks + 1)
    }
}

/// The rules of the declarations, in order.
pub open spec fn declared_rules<R>(d: Seq<(GrammarRule, Vec<R>)>) -> Seq<RuleView> {
    d.map_values(|e: (GrammarRule, Vec<R>)| e.0@)
}

/// Each declared rule with the number of routines declared with it.
pub open spec fn declared_counts<R>(d: Seq<(GrammarRule, Vec<R>)>) -> Seq<(RuleView, nat)> {
    d.map_values(|e: (GrammarRule, Vec<R>)| (e.0@, e.1@.len()))
}

/// The declared routines, in order.
pub open spec fn declared_routines<R>(d: Seq<(GrammarRule, Vec<R>)>) -> Seq<R>
    decreases d.len(),
{
    if d.len() == 0 {
        Seq::empty()
    } else {
        declared_routines(d.drop_last()) + d.last().1@
    }
}

/// The routines declared with rule `r`, in declaration order.
pub open spec fn routines_declared_with<R>(d: Seq<(GrammarRule, Vec<R>)>, r: RuleView) -> Seq<R>
    decreases d.len(),
{
    if d.len() == 0 {
        Seq::empty()
    } else {
        routines_declared_with(d.drop_last(), r) + if d.last().0@ == r {
            d.last().1@
        } else {
            Seq::empty()
        }
    }
}

/// The routine index lists, for each rule, exactly the positions of the routines declared with it.
pub proof fn lemma_routines_declared_with<R>(d: Seq<(GrammarRule, Vec<R>)>, r: RuleView)
    requires
        declared_routines(d).len() <= usize::MAX,
    ensures
        routine_total(declared_counts(d)) == declared_routines(d).len(),
        all_below(routine_ids_of(declared_counts(d), r), declared_routines(d).len()),
        resolve(routine_ids_of(declared_counts(d), r), declared_routines(d)) == routines_declared_with(d, r),
    decreases d.len(),
{
    let cs = declared_counts(d);
    let items = declared_routines(d);
    let ids = routine_ids_of(cs, r);
    if d.len() == 0 {
        assert(ids =~= Seq::<usize>::empty());
        lemma_resolve_all(ids, items);
        assert(ids.map_values(|i: usize| items[i as int]) =~= Seq::<R>::empty());
    } else {
        let p = d.drop_last();
        let last = d.last();
        let pitems = declared_routines(p);
        let pids = routine_ids_of(declared_counts(p), r);
        assert(cs.drop_last() =~= declared_counts(p));
        lemma_routines_declared_with(p, r);
        let base = pitems.len();
        assert(items == pitems + last.1@);
        assert(routine_total(cs) == routine_total(declared_counts(p)) + last.1@.len());
        let tail = if last.0@ == r {
            Seq::new(last.1@.len(), |j: int| (base + j) as usize)
        } else {
            Seq::<usize>::empty()
        };
        assert(ids =~= pids + tail);
        assert(all_below(ids, items.len())) by {
            assert forall|j: int| 0 <= j < ids.len() implies (#[trigger] ids[j] as nat) < items.len() by {
                if j < pids.len() {
                    assert(ids[j] == pids[j]);
                } else {
                    assert(ids[j] == tail[j - pids.len()]);
                }
            }
        }
        lemma_resolve_all(ids, items);
        lemma_resolve_all(pids, pitems);
        let a = ids.map_values(|i: usize| items[i as int]);
        let b = routines_declared_with(d, r);
        let extra = if last.0@ == r {
            last.1@
        } else {
            Seq::<R>::empty()
        };
        assert(b == routines_declared_with(p, r) + extra);
        assert(a.len() == b.len());
        assert forall|j: int| 0 <= j < a.len() implies a[j] == b[j] by {
            if j < pids.len() {
                assert(ids[j] == pids[j]);
                assert((pids[j] as nat) < base);
                assert(items[pids[j] as int] == pitems[pids[j] as int]);
                assert(pids.map_values(|i: usize| pitems[i as int])[j] == pitems[pids[j] as int]);
            } else {
                assert(ids[j] == tail[j - pids.len()]);
            }
        }
        assert(a =~= b);
    }
}

impl<R> Grammar<R> {
    fn populate_first_and_follow_sets(&mut self, symbol_domain: &SymbolDomain)
        requires
            old(self).first_sets@.len() == 0,
            old(self).follow_sets@.len() == 0,
            symbol_domain.wf(),
            small_terminals(symbol_domain@),
            old(self).symbol_domain_size == symbol_domain@.len(),
            old(self).index_wf(),
            walkable(symbol_domain@, old(self).rule_list(), old(self).start()),
            known(symbol_domain@, old(self).start()),
        ensures
            final(self).first_wf(),
            final(self).follow_wf(),
            final(self).index_wf(),
            final(self).symbols() == symbol_domain@,
            final(self).rule_list() == old(self).rule_list(),
            final(self).start() == old(self).start(),
            final(self).routines() == old(self).routines(),
            forall|r: RuleView| final(self).routine_ids(r) == old(self).routine_ids(r),
            final(self).first_of_terminals(),
            final(self).first_unreached_empty(),
            final(self).first_solved(),
            first_sound(final(self).symbols(), final(self).rule_list(), final(self).first_view()),
            final(self).follow_view()[old(self).start().id as int].contains(1),
            final(self).follow_solved(),
            follow_sound(final(self).symbols(), final(self).rule_list(), final(self).start(), final(self).first_view(), final(self).follow_view()),
    {
        let ghost c = choose|c: Set<nat>| walk_closed(symbol_domain@, self.rule_list(), self.start(), c);
        let _ = self.populate_first_sets(symbol_domain, Ghost(c));
        let ghost g1 = *self;
        proof {
            assert(self.walk_ok(c));
        }
        let _ = self.populate_follow_sets(symbol_domain, Ghost(c));
        proof {
            Self::lemma_first_facts_kept(&g1, self);
        }
    }

    /// Facts about the FIRST sets survive a change that leaves the FIRST sets and the rules alone.
    proof fn lemma_first_facts_kept(a: &Grammar<R>, b: &Grammar<R>)
        requires
            a.first_unreached_empty(),
            a.first_of_terminals(),
            a.first_solved(),
            a.first_view() == b.first_view(),
            a.symbols() == b.symbols(),
            a.rule_list() == b.rule_list(),
            a.start() == b.start(),
        ensures
            b.first_unreached_empty(),
            b.first_of_terminals(),
            b.first_solved(),
    {
        let v = choose|v: Set<nat>| a.first_witness(v);
        assert forall|y: nat| v.contains(y) implies a.rules_of(y) == b.rules_of(y) by {}
        assert(b.first_witness(v));
    }

    /// Builds the grammar: the rules in the order given, filed by position under their head and
    /// under each symbol of their body; the routines of each rule after those before, filed by
    /// position under their rule; then the FIRST and FOLLOW sets of the symbols of `symbol_domain`, computed by
    /// walks from the start symbol repeated until a walk changes nothing. The FIRST sets agree
    /// with the least solution of the FIRST equations on every symbol but the nonterminals that
    /// some walk misses, whose sets stay empty; the FOLLOW sets are the least solution of the FOLLOW equations over the
    /// nonterminals that every walk meets.
    pub fn new(
        start_symbol: Symbol,
        grammar_rules: Vec<(GrammarRule, Vec<R>)>,
        symbol_domain: &SymbolDomain,
    ) -> (grammar: Grammar<R>)
        requires
            symbol_domain.wf(),
            known(symbol_domain@, start_symbol),
            small_terminals(symbol_domain@),
            walkable(symbol_domain@, declared_rules(grammar_rules@), start_symbol),
        ensures
            grammar.index_wf(),
            grammar.first_wf(),
            grammar.follow_wf(),
            grammar.start() == start_symbol,
            grammar.symbols() == symbol_domain@,
            grammar.rule_list() == declared_rules(grammar_rules@),
            grammar.routines() == declared_routines(grammar_rules@),
            forall|r: RuleView| #[trigger] grammar.routine_ids(r) == routine_ids_of(declared_counts(grammar_rules@), r),
            forall|r: RuleView| #[trigger] grammar.routines_of(r) == routines_declared_with(grammar_rules@, r),
            grammar.first_view().len() == symbol_domain@.len(),
            grammar.follow_view().len() == symbol_domain@.len(),
            grammar.first_of_terminals(),
            grammar.first_unreached_empty(),
            grammar.first_solved(),
            first_sound(symbol_domain@, declared_rules(grammar_rules@), grammar.first_view()),
            first_above_iterates(
                symbol_domain@,
                declared_rules(grammar_rules@),
                grammar.first_view(),
                every_walk_set(symbol_domain@, declared_rules(grammar_rules@), start_symbol),
            ),
            grammar.follow_view()[start_symbol.id as int].contains(1),
            grammar.follow_solved(),
            follow_sound(
                symbol_domain@,
                declared_rules(grammar_rules@),
                start_symbol,
                grammar.first_view(),
                grammar.follow_view(),
            ),
            exists|k: nat|
                follow_iter(
                    symbol_domain@,
                    declared_rules(grammar_rules@),
                    start_symbol,
                    every_walk_set(symbol_domain@, declared_rules(grammar_rules@), start_symbol),
                    grammar.first_view(),
                    k,
                ) == grammar.follow_view(),
            follow_step(
                symbol_domain@,
                declared_rules(grammar_rules@),
                every_walk_set(symbol_domain@, declared_rules(grammar_rules@), start_symbol),
                grammar.first_view(),
                grammar.follow_view(),
            ) == grammar.follow_view(),
            forall|x: nat|
                #[trigger] every_walk_set(symbol_domain@, declared_rules(grammar_rules@), start_symbol).contains(x)
                    ==> (grammar.first_view()[x as int].contains(0) <==> has_nullable_rule(
                    grammar.first_view(),
                    grammar.rules_of(x),
                )),
            forall|x: nat|
                #[trigger] every_walk_set(symbol_domain@, declared_rules(grammar_rules@), start_symbol).contains(x)
                    ==> first_from_rules(grammar.first_view(), grammar.rules_of(x), x),
            forall|i: int, e: nat|
                0 <= i < grammar.follow_view().len() && #[trigger] grammar.follow_view()[i].contains(e)
                    ==> follow_justified(
                    symbol_domain@,
                    declared_rules(grammar_rules@),
                    start_symbol,
                    grammar.first_view(),
                    grammar.follow_view(),
                    i,
                    e,
                ),
            forall|x: nat, m: int|
                every_walk_set(symbol_domain@, declared_rules(grammar_rules@), start_symbol).contains(x) && 0 <= m
                    < grammar.rules_of(x).len() ==> follows_rule(
                    grammar.first_view(),
                    grammar.follow_view(),
                    #[trigger] grammar.rules_of(x)[m],
                ),
    {
        let ghost d = grammar_rules@;
        let capacity = grammar_rules.len();
        let mut grammar = Grammar {
            start_symbol,
            rules: Vec::with_capacity(capacity),
            action_routines: Vec::new(),
            rules_to_routines_map: Vec::new(),
            rules_by_head: Vec::new(),
            rules_by_body: Vec::new(),
            symbol_domain_size: symbol_domain.len(),
            first_sets: Vec::new(),
            follow_sets: Vec::new(),
            declarations: Ghost(Seq::empty()),
        };
        proof {
            assert(rule_views(grammar.rules@) =~= Seq::<RuleView>::empty());
            assert(declared_rules(d.take(0)) =~= Seq::<RuleView>::empty());
            assert(declared_counts(d.take(0)) =~= Seq::<(RuleView, nat)>::empty());
            assert(grammar.action_routines@ =~= declared_routines(d.take(0)));
            assert(indexes(index_view(grammar.rules_by_head@), heads_fn(rule_views(grammar.rules@))));
            assert(indexes(index_view(grammar.rules_by_body@), bodies_fn(rule_views(grammar.rules@))));
            assert(indexes(routine_index_view(grammar.rules_to_routines_map@), routine_ids_fn(Seq::empty())));
        }
        let n = grammar_rules.len();
        let mut rev = reversed(grammar_rules);
        let mut k: usize = 0;
        while k < n
            invariant
                k <= n,
                n == d.len(),
                rev@ == d.subrange(k as int, n as int).reverse(),
                grammar.start_symbol == start_symbol,
                grammar.symbol_domain_size == symbol_domain@.len(),
                grammar.first_sets@.len() == 0,
                grammar.follow_sets@.len() == 0,
                rule_views(grammar.rules@) == declared_rules(d.take(k as int)),
                grammar.declarations@ == declared_counts(d.take(k as int)),
                grammar.action_routines@ == declared_routines(d.take(k as int)),
                grammar.index_wf(),
            decreases n - k,
        {
            proof {
                assert(rev@.len() > 0);
            }
            let (rule, routines) = rev.pop().unwrap();
            proof {
                assert(rev@ =~= d.subrange(k + 1, n as int).reverse());
                assert((rule, routines) == d[k as int]);
                assert(d.take(k + 1).drop_last() =~= d.take(k as int));
            }
            let ghost rv_before = rule_views(grammar.rules@);
            grammar.rules.push(rule.clone());
            let rule_id = grammar.rules.len() - 1;
            proof {
                assert(rule_views(grammar.rules@) =~= rv_before.push(rule@));
                assert(rule_views(grammar.rules@).drop_last() =~= rv_before);
            }
            grammar.update_rule_by_symbol_maps(rule.clone(), rule_id);
            let ghost decl_before = grammar.declarations@;
            grammar.add_routine(rule, routines);
            proof {
                assert(grammar.declarations@.drop_last() =~= decl_before);
                assert(routine_total(grammar.declarations@) == routine_total(decl_before) + routines@.len());
                assert(rule_views(grammar.rules@) =~= declared_rules(d.take(k + 1)));
                assert(grammar.declarations@ =~= declared_counts(d.take(k + 1)));
                assert(grammar.action_routines@ =~= declared_routines(d.take(k + 1)));
            }
            k += 1;
        }
        proof {
            assert(d.take(n as int) =~= d);
            assert forall|r: RuleView| #[trigger] grammar.routine_ids(r) == routine_ids_of(
                declared_counts(d),
                r,
            ) by {
                lemma_lookup(
                    routine_index_view(grammar.rules_to_routines_map@),
                    routine_ids_fn(grammar.declarations@),
                    r,
                );
            }
            assert(grammar.action_routines.len() == grammar.action_routines@.len());
            assert(declared_routines(d).len() <= usize::MAX);
        }
        grammar.populate_first_and_follow_sets(symbol_domain);
        proof {
            assert forall|r: RuleView| #[trigger] grammar.routines_of(r) == routines_declared_with(d, r) by {
                lemma_routines_declared_with(d, r);
                assert(grammar.routine_ids(r) == routine_ids_of(declared_counts(d), r));
            }
            symbol_domain.lemma_ids();
            let keys = symbol_domain@;
            let rl = declared_rules(d);
            let fs = grammar.first_view();
            let v1 = choose|v: Set<nat>| grammar.first_witness(v);
            let c0 = choose|c: Set<nat>| walk_closed(keys, rl, start_symbol, c);
            let v2 = v1.intersect(c0);
            assert forall|y: nat| #[trigger] v2.contains(y) implies y < keys.len() && keys[y as int].symbol_type
                == SymbolType::Nonterminal && first_closed_at(fs, rules_for(keys, rl, y), v2, y) && forall|m: int, i: int|
                0 <= m < rules_for(keys, rl, y).len() && 0 <= i < rules_for(keys, rl, y)[m].1.len()
                    ==> known(keys, #[trigger] rules_for(keys, rl, y)[m].1[i]) by {
                assert(v1.contains(y) && c0.contains(y));
                let rs = rules_for(keys, rl, y);
                assert(first_closed_at(fs, rs, v1, y));
                assert forall|m: int| 0 <= m < rs.len() implies rule_ok(keys, c0, #[trigger] rs[m]) by {}
                assert forall|m: int, i: int| 0 <= m < rs.len() && 0 <= i < rs[m].1.len() implies known(
                    keys,
                    #[trigger] rs[m].1[i],
                ) by {
                    assert(rule_ok(keys, c0, rs[m]));
                }
                assert forall|m: int| 0 <= m < rs.len() implies {
                    &&& body_first(fs, #[trigger] rs[m].1).subset_of(fs[y as int])
                    &&& forall|i: int|
                        0 <= i < stop_from(fs, rs[m].1, 0) && (#[trigger] rs[m].1[i]).symbol_type
                            == SymbolType::Nonterminal ==> v2.contains(rs[m].1[i].id as nat)
                } by {
                    assert(rule_ok(keys, c0, rs[m]));
                    lemma_stop_bounds(fs, rs[m].1, 0);
                    assert forall|i: int|
                        0 <= i < stop_from(fs, rs[m].1, 0) && (#[trigger] rs[m].1[i]).symbol_type
                            == SymbolType::Nonterminal implies v2.contains(rs[m].1[i].id as nat) by {
                        assert(v1.contains(rs[m].1[i].id as nat));
                        assert(c0.contains(rs[m].1[i].id as nat));
                    }
                }
            }
            assert(grammar.first_witness(v2));
            assert forall|k: nat, j: int|
                0 <= j < keys.len() && (v2.contains(j as nat) || keys[j].symbol_type != SymbolType::Nonterminal)
                    implies #[trigger] first_iter(keys, rl, k)[j].subset_of(fs[j]) by {
                lemma_first_least(keys, rl, fs, v2, k);
            }
            assert(first_above_iterates(keys, rl, fs, v2));
            assert forall|y: nat| #[trigger] v2.contains(y) implies forall|m: int|
                0 <= m < rules_for(keys, rl, y).len() ==> rule_ok(keys, v2, #[trigger] rules_for(keys, rl, y)[m]) by {
                let rs = rules_for(keys, rl, y);
                assert(first_closed_at(fs, rs, v1, y));
                assert forall|m: int| 0 <= m < rs.len() implies rule_ok(keys, v2, #[trigger] rs[m]) by {
                    assert(rule_ok(keys, c0, rs[m]));
                }
            }
            assert(walk_closed(keys, rl, start_symbol, v2));
            let w = every_walk_set(keys, rl, start_symbol);
            assert forall|k: nat, j: int|
                0 <= j < keys.len() && (w.contains(j as nat) || keys[j].symbol_type != SymbolType::Nonterminal)
                    implies #[trigger] first_iter(keys, rl, k)[j].subset_of(fs[j]) by {
                if w.contains(j as nat) {
                    assert(in_every_walk(keys, rl, start_symbol, j as nat));
                    assert(v2.contains(j as nat));
                }
                lemma_first_least(keys, rl, fs, v2, k);
            }
            assert forall|y: nat| #[trigger] v2.contains(y) implies first_closed_at(fs, rules_for(keys, rl, y), v2, y) by {}
            assert(w.subset_of(v2)) by {
                assert forall|y: nat| w.contains(y) implies v2.contains(y) by {
                    assert(in_every_walk(keys, rl, start_symbol, y));
                }
            }
            assert forall|x: nat| #[trigger] w.contains(x) implies (fs[x as int].contains(0) <==> has_nullable_rule(
                fs,
                grammar.rules_of(x),
            )) by {
                lemma_first_epsilon_law(keys, rl, start_symbol, fs, v2, c0, x);
            }
            assert forall|x: nat| #[trigger] w.contains(x) implies first_from_rules(fs, grammar.rules_of(x), x) by {
                lemma_first_from_rules(keys, rl, start_symbol, fs, v2, c0, x);
            }
            let v = choose|v: Set<nat>| grammar.follow_witness(v);
            assert forall|y: nat| #[trigger] v.contains(y) implies y < symbol_domain@.len()
                && symbol_domain@[y as int].symbol_type == SymbolType::Nonterminal && follow_closed_at(
                grammar.first_view(),
                grammar.follow_view(),
                rules_for(symbol_domain@, declared_rules(d), y),
                v,
            ) by {}
            lemma_follow_least(
                symbol_domain@,
                declared_rules(d),
                start_symbol,
                grammar.first_view(),
                grammar.follow_view(),
                v,
            );
            assert forall|x: nat, m: int|
                every_walk_set(symbol_domain@, declared_rules(d), start_symbol).contains(x) && 0 <= m
                    < grammar.rules_of(x).len() implies follows_rule(
                    grammar.first_view(),
                    grammar.follow_view(),
                    #[trigger] grammar.rules_of(x)[m],
                ) by {
                assert(v.contains(x));
                assert(follow_closed_at(grammar.first_view(), grammar.follow_view(), grammar.rules_of(x), v));
                lemma_closed_follows(grammar.first_view(), grammar.follow_view(), grammar.rules_of(x)[m]);
            }
            let kk = choose|k: nat|
                follow_iter(
                    symbol_domain@,
                    declared_rules(d),
                    start_symbol,
                    every_walk_set(symbol_domain@, declared_rules(d), start_symbol),
                    grammar.first_view(),
                    k,
                ) == grammar.follow_view();
            assert forall|i: int, e: nat|
                0 <= i < grammar.follow_view().len() && #[trigger] grammar.follow_view()[i].contains(e)
                    implies follow_justified(
                    symbol_domain@,
                    declared_rules(d),
                    start_symbol,
                    grammar.first_view(),
                    grammar.follow_view(),
                    i,
                    e,
                ) by {
                lemma_iter_justified(
                    symbol_domain@,
                    declared_rules(d),
                    start_symbol,
                    grammar.first_view(),
                    grammar.follow_view(),
                    kk,
                    kk,
                    i,
                    e,
                );
            }
        }
        grammar
    }
}

} // verus!

verus! {

/// Each set of `a` is included in the set of `b` at the same position.
pub open spec fn below(a: Seq<Set<nat>>, b: Seq<Set<nat>>) -> bool {
    a.len() == b.len() && forall|i: int| 0 <= i < a.len() ==> #[trigger] a[i].subset_of(b[i])
}

/// The FIRST sets before any rule is applied: nothing for a nonterminal, the symbol itself for
/// any other symbol.
pub open spec fn first_init(keys: Seq<Symbol>) -> Seq<Set<nat>> {
    Seq::new(
        keys.len(),
        |i: int|
            if keys[i].symbol_type == SymbolType::Nonterminal {
                Set::<nat>::empty()
            } else {
                Set::<nat>::empty().insert(i as nat)
            },
    )
}

/// One application of all the FIRST equations: each nonterminal's set gains the FIRST sets of
/// the bodies of the rules `rule_by_head` gives for it.
pub open spec fn first_step(keys: Seq<Symbol>, rules: Seq<RuleView>, fs: Seq<Set<nat>>) -> Seq<Set<nat>> {
    Seq::new(
        fs.len(),
        |i: int|
            if keys[i].symbol_type == SymbolType::Nonterminal {
                fs[i].union(
                    rules_first(fs, rules_for(keys, rules, i as nat), rules_for(keys, rules, i as nat).len() as int),
                )
            } else {
                fs[i]
            },
    )
}

/// The FIRST sets after `k` applications of all the equations.
pub open spec fn first_iter(keys: Seq<Symbol>, rules: Seq<RuleView>, k: nat) -> Seq<Set<nat>>
    decreases k,
{
    if k == 0 {
        first_init(keys)
    } else {
        first_step(keys, rules, first_iter(keys, rules, (k - 1) as nat))
    }
}

/// Every id in the sets `fs` is forced by the FIRST equations: the sets lie below some
/// iterate of them.
pub open spec fn first_sound(keys: Seq<Symbol>, rules: Seq<RuleView>, fs: Seq<Set<nat>>) -> bool {
    exists|k: nat| below(fs, first_iter(keys, rules, k))
}

proof fn lemma_stop_mono(a: Seq<Set<nat>>, b: Seq<Set<nat>>, body: Seq<Symbol>, k: int)
    requires
        below(a, b),
        0 <= k <= body.len(),
    ensures
        stop_from(a, body, k) <= stop_from(b, body, k),
    decreases body.len() - k,
{
    if k < body.len() {
        let j = body[k].id as int;
        if 0 <= j < a.len() {
            assert(a[j].subset_of(b[j]));
        }
        if set_at(a, j).contains(0) {
            lemma_stop_mono(a, b, body, k + 1);
        }
        lemma_stop_bounds(b, body, k + 1);
    }
}

proof fn lemma_union_upto_mono(a: Seq<Set<nat>>, b: Seq<Set<nat>>, body: Seq<Symbol>, n: int, n2: int)
    requires
        below(a, b),
        n <= n2,
    ensures
        union_upto(a, body, n).subset_of(union_upto(b, body, n2)),
    decreases n2,
{
    if n2 > 0 {
        if n == n2 {
            lemma_union_upto_mono(a, b, body, n - 1, n2 - 1);
            let j = body[n - 1].id as int;
            if 0 <= j < a.len() {
                assert(a[j].subset_of(b[j]));
            }
        } else {
            lemma_union_upto_mono(a, b, body, n, n2 - 1);
        }
    }
}

proof fn lemma_body_first_mono(a: Seq<Set<nat>>, b: Seq<Set<nat>>, body: Seq<Symbol>)
    requires
        below(a, b),
    ensures
        body_first(a, body).subset_of(body_first(b, body)),
{
    lemma_stop_mono(a, b, body, 0);
    lemma_union_upto_mono(a, b, body, stop_from(a, body, 0), stop_from(b, body, 0));
    if nullable_upto(a, body, body.len() as int) {
        assert forall|i: int| 0 <= i < body.len() implies #[trigger] set_at(b, body[i].id as int).contains(0) by {
            let j = body[i].id as int;
            assert(set_at(a, j).contains(0));
            if 0 <= j < a.len() {
                assert(a[j].subset_of(b[j]));
            }
        }
    }
}

proof fn lemma_rules_first_mono(a: Seq<Set<nat>>, b: Seq<Set<nat>>, rs: Seq<RuleView>, m: int)
    requires
        below(a, b),
    ensures
        rules_first(a, rs, m).subset_of(rules_first(b, rs, m)),
    decreases m,
{
    if m > 0 {
        lemma_rules_first_mono(a, b, rs, m - 1);
        lemma_body_first_mono(a, b, rs[m - 1].1);
    }
}

proof fn lemma_first_iter_len(keys: Seq<Symbol>, rules: Seq<RuleView>, k: nat)
    ensures
        first_iter(keys, rules, k).len() == keys.len(),
    decreases k,
{
    if k > 0 {
        lemma_first_iter_len(keys, rules, (k - 1) as nat);
    }
}

/// The iterates grow: the `k`-th lies below the `k2`-th when `k <= k2`.
proof fn lemma_first_iter_grows(keys: Seq<Symbol>, rules: Seq<RuleView>, k: nat, k2: nat)
    requires
        k <= k2,
    ensures
        below(first_iter(keys, rules, k), first_iter(keys, rules, k2)),
    decreases k2,
{
    lemma_first_iter_len(keys, rules, k);
    lemma_first_iter_len(keys, rules, k2);
    if k < k2 {
        lemma_first_iter_grows(keys, rules, k, (k2 - 1) as nat);
        let p = first_iter(keys, rules, (k2 - 1) as nat);
        let q = first_iter(keys, rules, k2);
        lemma_first_iter_len(keys, rules, (k2 - 1) as nat);
        assert forall|i: int| 0 <= i < p.len() implies #[trigger] p[i].subset_of(q[i]) by {}
        assert forall|i: int| 0 <= i < q.len() implies #[trigger] first_iter(keys, rules, k)[i].subset_of(q[i]) by {
            assert(first_iter(keys, rules, k)[i].subset_of(p[i]));
            assert(p[i].subset_of(q[i]));
        }
    }
}

/// What a symbol's set gains from its rules, under sets below the `k`-th iterate, is in the
/// next iterate.
proof fn lemma_first_step_bound(keys: Seq<Symbol>, rules: Seq<RuleView>, fs: Seq<Set<nat>>, k: nat, x: nat)
    requires
        below(fs, first_iter(keys, rules, k)),
        x < keys.len(),
        keys[x as int].symbol_type == SymbolType::Nonterminal,
    ensures
        rules_first(first_iter(keys, rules, k), rules_for(keys, rules, x), rules_for(keys, rules, x).len() as int).subset_of(
            first_iter(keys, rules, k + 1)[x as int],
        ),
        first_iter(keys, rules, k)[x as int].subset_of(first_iter(keys, rules, k + 1)[x as int]),
{
    lemma_first_iter_len(keys, rules, k);
}

} // verus!

verus! {

/// `x` belongs to every set that is closed under the walks from `start`.
pub open spec fn in_every_walk(keys: Seq<Symbol>, rules: Seq<RuleView>, start: Symbol, x: nat) -> bool {
    forall|c: Set<nat>| #[trigger] walk_closed(keys, rules, start, c) ==> c.contains(x)
}

/// The FOLLOW sets before any rule is applied: end of input after the start symbol, nothing
/// elsewhere.
pub open spec fn follow_init(keys: Seq<Symbol>, start: Symbol) -> Seq<Set<nat>> {
    Seq::new(
        keys.len(),
        |i: int|
            if keys[i] == start {
                Set::<nat>::empty().insert(1)
            } else {
                Set::<nat>::empty()
            },
    )
}

/// What the rules of the members of `c` add to the FOLLOW set of the symbol with id `i`, under
/// FIRST sets `fs` and FOLLOW sets `fw`.
pub open spec fn follow_gain(
    keys: Seq<Symbol>,
    rules: Seq<RuleView>,
    c: Set<nat>,
    fs: Seq<Set<nat>>,
    fw: Seq<Set<nat>>,
    i: nat,
) -> Set<nat> {
    Set::new(
        |e: nat|
            exists|x: nat, m: int, t: int|
                #![trigger follow_suffix(fs, set_at(fw, rules_for(keys, rules, x)[m].0.id as int), rules_for(keys, rules, x)[m].1, t)]
                c.contains(x) && 0 <= m < rules_for(keys, rules, x).len() && 0 <= t < rules_for(
                    keys,
                    rules,
                    x,
                )[m].1.len() && rules_for(keys, rules, x)[m].1[rules_for(keys, rules, x)[m].1.len() - 1
                    - t].id == i && follow_suffix(
                    fs,
                    set_at(fw, rules_for(keys, rules, x)[m].0.id as int),
                    rules_for(keys, rules, x)[m].1,
                    t,
                ).contains(e),
    )
}

/// One application of the FOLLOW equations of the rules of the members of `c`.
pub open spec fn follow_step(
    keys: Seq<Symbol>,
    rules: Seq<RuleView>,
    c: Set<nat>,
    fs: Seq<Set<nat>>,
    fw: Seq<Set<nat>>,
) -> Seq<Set<nat>> {
    Seq::new(fw.len(), |i: int| fw[i].union(follow_gain(keys, rules, c, fs, fw, i as nat)))
}

/// The FOLLOW sets after `k` applications of the equations of the rules of the members of `c`.
pub open spec fn follow_iter(
    keys: Seq<Symbol>,
    rules: Seq<RuleView>,
    start: Symbol,
    c: Set<nat>,
    fs: Seq<Set<nat>>,
    k: nat,
) -> Seq<Set<nat>>
    decreases k,
{
    if k == 0 {
        follow_init(keys, start)
    } else {
        follow_step(keys, rules, c, fs, follow_iter(keys, rules, start, c, fs, (k - 1) as nat))
    }
}

/// Every id in the FOLLOW sets `fw` is forced by the FOLLOW equations of the rules the walks
/// from the start symbol meet: for every set closed under the walks, the sets lie below some
/// iterate of the equations of that set's rules.
pub open spec fn follow_sound(
    keys: Seq<Symbol>,
    rules: Seq<RuleView>,
    start: Symbol,
    fs: Seq<Set<nat>>,
    fw: Seq<Set<nat>>,
) -> bool {
    forall|c: Set<nat>|
        #[trigger] walk_closed(keys, rules, start, c) ==> exists|k: nat| below(fw, follow_iter(keys, rules, start, c, fs, k))
}

/// The ids every walk-closed set holds.
pub open spec fn every_walk_set(keys: Seq<Symbol>, rules: Seq<RuleView>, start: Symbol) -> Set<nat> {
    Set::new(|x: nat| in_every_walk(keys, rules, start, x))
}

/// A nonterminal in the body of a rule of a symbol every walk-closed set holds is itself held by
/// every walk-closed set.
proof fn lemma_every_walk_body(keys: Seq<Symbol>, rules: Seq<RuleView>, start: Symbol, x: nat, m: int, i: int)
    requires
        in_every_walk(keys, rules, start, x),
        0 <= m < rules_for(keys, rules, x).len(),
        0 <= i < rules_for(keys, rules, x)[m].1.len(),
        rules_for(keys, rules, x)[m].1[i].symbol_type == SymbolType::Nonterminal,
    ensures
        in_every_walk(keys, rules, start, rules_for(keys, rules, x)[m].1[i].id as nat),
{
    assert forall|cc: Set<nat>| #[trigger] walk_closed(keys, rules, start, cc) implies cc.contains(
        rules_for(keys, rules, x)[m].1[i].id as nat,
    ) by {
        assert(cc.contains(x));
        assert(rule_ok(keys, cc, rules_for(keys, rules, x)[m]));
    }
}

proof fn lemma_follow_suffix_mono(fs: Seq<Set<nat>>, h1: Set<nat>, h2: Set<nat>, body: Seq<Symbol>, t: int)
    requires
        h1.subset_of(h2),
    ensures
        follow_suffix(fs, h1, body, t).subset_of(follow_suffix(fs, h2, body, t)),
    decreases t,
{
    if t > 0 {
        lemma_follow_suffix_mono(fs, h1, h2, body, t - 1);
    }
}

proof fn lemma_follow_iter_len(
    keys: Seq<Symbol>,
    rules: Seq<RuleView>,
    start: Symbol,
    c: Set<nat>,
    fs: Seq<Set<nat>>,
    k: nat,
)
    ensures
        follow_iter(keys, rules, start, c, fs, k).len() == keys.len(),
    decreases k,
{
    if k > 0 {
        lemma_follow_iter_len(keys, rules, start, c, fs, (k - 1) as nat);
    }
}

proof fn lemma_follow_iter_grows(
    keys: Seq<Symbol>,
    rules: Seq<RuleView>,
    start: Symbol,
    c: Set<nat>,
    fs: Seq<Set<nat>>,
    k: nat,
    k2: nat,
)
    requires
        k <= k2,
    ensures
        below(follow_iter(keys, rules, start, c, fs, k), follow_iter(keys, rules, start, c, fs, k2)),
    decreases k2,
{
    lemma_follow_iter_len(keys, rules, start, c, fs, k);
    lemma_follow_iter_len(keys, rules, start, c, fs, k2);
    if k < k2 {
        lemma_follow_iter_grows(keys, rules, start, c, fs, k, (k2 - 1) as nat);
        let p = follow_iter(keys, rules, start, c, fs, (k2 - 1) as nat);
        let q = follow_iter(keys, rules, start, c, fs, k2);
        lemma_follow_iter_len(keys, rules, start, c, fs, (k2 - 1) as nat);
        assert forall|i: int| 0 <= i < q.len() implies #[trigger] follow_iter(keys, rules, start, c, fs, k)[i].subset_of(
            q[i],
        ) by {
            assert(follow_iter(keys, rules, start, c, fs, k)[i].subset_of(p[i]));
            assert(p[i].subset_of(q[i]));
        }
    }
}


/// Under FOLLOW sets `fw` closed over the rules of the members of `v`, what those rules add to
/// the set of symbol `i`, from sets below `fw`, is already in `fw`.
proof fn lemma_follow_gain_below(
    keys: Seq<Symbol>,
    rules: Seq<RuleView>,
    v: Set<nat>,
    fs: Seq<Set<nat>>,
    a: Seq<Set<nat>>,
    fw: Seq<Set<nat>>,
    i: nat,
)
    requires
        below(a, fw),
        forall|y: nat| #[trigger] v.contains(y) ==> follow_closed_at(fs, fw, rules_for(keys, rules, y), v),
    ensures
        follow_gain(keys, rules, v, fs, a, i).subset_of(fw[i as int]),
{
    assert forall|e: nat| #[trigger] follow_gain(keys, rules, v, fs, a, i).contains(e) implies fw[i as int].contains(e) by {
        let (x, m, t) = choose|x: nat, m: int, t: int|
            #![trigger follow_suffix(fs, set_at(a, rules_for(keys, rules, x)[m].0.id as int), rules_for(keys, rules, x)[m].1, t)]
            v.contains(x) && 0 <= m < rules_for(keys, rules, x).len() && 0 <= t < rules_for(keys, rules, x)[m].1.len()
                && rules_for(keys, rules, x)[m].1[rules_for(keys, rules, x)[m].1.len() - 1 - t].id == i
                && follow_suffix(fs, set_at(a, rules_for(keys, rules, x)[m].0.id as int), rules_for(keys, rules, x)[m].1, t).contains(e);
        let r = rules_for(keys, rules, x)[m];
        assert(follow_closed_at(fs, fw, rules_for(keys, rules, x), v));
        assert(rule_follow_closed(fs, fw, r));
        let h = r.0.id as int;
        if 0 <= h < a.len() {
            assert(a[h].subset_of(fw[h]));
        }
        assert(set_at(a, h).subset_of(fw[h]));
        lemma_follow_suffix_mono(fs, set_at(a, h), fw[h], r.1, t);
        assert(follow_suffix(fs, fw[h], r.1, t).subset_of(fw[r.1[r.1.len() - 1 - t].id as int]));
    }
}

/// A witness `v` of the FOLLOW equations that lies within every walk-closed set is that set of
/// ids every walk meets, and the FOLLOW sets it closes are the least solution of the equations
/// over it: an iterate from the start reaches them, and one more application changes nothing.
proof fn lemma_follow_least(
    keys: Seq<Symbol>,
    rules: Seq<RuleView>,
    start: Symbol,
    fs: Seq<Set<nat>>,
    fw: Seq<Set<nat>>,
    v: Set<nat>,
)
    requires
        forall|i: int| 0 <= i < keys.len() ==> (#[trigger] keys[i]).id == i,
        fw.len() == keys.len(),
        known(keys, start),
        fw[start.id as int].contains(1),
        walkable(keys, rules, start),
        start.symbol_type == SymbolType::Nonterminal ==> v.contains(start.id as nat),
        v.subset_of(every_walk_set(keys, rules, start)),
        forall|y: nat|
            #[trigger] v.contains(y) ==> y < keys.len() && keys[y as int].symbol_type == SymbolType::Nonterminal
                && follow_closed_at(fs, fw, rules_for(keys, rules, y), v),
        follow_sound(keys, rules, start, fs, fw),
    ensures
        exists|k: nat| follow_iter(keys, rules, start, every_walk_set(keys, rules, start), fs, k) == fw,
        follow_step(keys, rules, every_walk_set(keys, rules, start), fs, fw) == fw,
        v == every_walk_set(keys, rules, start),
{
    let c0 = choose|c: Set<nat>| walk_closed(keys, rules, start, c);
    assert forall|y: nat| #[trigger] v.contains(y) implies {
        &&& y < 256
        &&& y < keys.len()
        &&& keys[y as int].symbol_type == SymbolType::Nonterminal
        &&& forall|m: int|
            0 <= m < rules_for(keys, rules, y).len() ==> rule_ok(keys, v, #[trigger] rules_for(keys, rules, y)[m])
    } by {
        assert(every_walk_set(keys, rules, start).contains(y));
        assert(c0.contains(y));
        assert(follow_closed_at(fs, fw, rules_for(keys, rules, y), v));
        assert forall|m: int| 0 <= m < rules_for(keys, rules, y).len() implies rule_ok(
            keys,
            v,
            #[trigger] rules_for(keys, rules, y)[m],
        ) by {
            assert(rule_ok(keys, c0, rules_for(keys, rules, y)[m]));
        }
    }
    assert(walk_closed(keys, rules, start, v));
    let w = every_walk_set(keys, rules, start);
    assert forall|x: nat| #[trigger] w.contains(x) implies v.contains(x) by {
        assert(in_every_walk(keys, rules, start, x));
    }
    assert(w =~= v);
    let k0 = choose|k: nat| below(fw, follow_iter(keys, rules, start, v, fs, k));
    assert forall|y: nat| #[trigger] v.contains(y) implies follow_closed_at(fs, fw, rules_for(keys, rules, y), v) by {}
    lemma_follow_iter_below(keys, rules, start, v, fs, fw, k0);
    let it = follow_iter(keys, rules, start, v, fs, k0);
    lemma_follow_iter_len(keys, rules, start, v, fs, k0);
    assert forall|i: int| 0 <= i < fw.len() implies #[trigger] it[i] == fw[i] by {
        assert(it[i].subset_of(fw[i]));
        assert(fw[i].subset_of(it[i]));
        assert(it[i] =~= fw[i]);
    }
    assert(it =~= fw);
    let st = follow_step(keys, rules, v, fs, fw);
    assert forall|i: int| 0 <= i < fw.len() implies #[trigger] st[i] == fw[i] by {
        lemma_below_refl(fw);
        lemma_follow_gain_below(keys, rules, v, fs, fw, fw, i as nat);
        assert(st[i] =~= fw[i]);
    }
    assert(st =~= fw);
}

/// Every iterate of the FOLLOW equations over `v` lies below FOLLOW sets `fw` that hold end of
/// input after the start symbol and are closed over the rules of the members of `v`.
proof fn lemma_follow_iter_below(
    keys: Seq<Symbol>,
    rules: Seq<RuleView>,
    start: Symbol,
    v: Set<nat>,
    fs: Seq<Set<nat>>,
    fw: Seq<Set<nat>>,
    k: nat,
)
    requires
        forall|i: int| 0 <= i < keys.len() ==> (#[trigger] keys[i]).id == i,
        fw.len() == keys.len(),
        known(keys, start),
        fw[start.id as int].contains(1),
        forall|y: nat| #[trigger] v.contains(y) ==> follow_closed_at(fs, fw, rules_for(keys, rules, y), v),
    ensures
        below(follow_iter(keys, rules, start, v, fs, k), fw),
    decreases k,
{
    lemma_follow_iter_len(keys, rules, start, v, fs, k);
    let it = follow_iter(keys, rules, start, v, fs, k);
    if k == 0 {
        assert forall|i: int| 0 <= i < it.len() implies #[trigger] it[i].subset_of(fw[i]) by {
            if keys[i] == start {
                assert(keys[i].id == i);
            }
        }
    } else {
        let prev = follow_iter(keys, rules, start, v, fs, (k - 1) as nat);
        lemma_follow_iter_below(keys, rules, start, v, fs, fw, (k - 1) as nat);
        assert forall|i: int| 0 <= i < it.len() implies #[trigger] it[i].subset_of(fw[i]) by {
            lemma_follow_gain_below(keys, rules, v, fs, prev, fw, i as nat);
            assert(prev[i].subset_of(fw[i]));
        }
    }
}


/// On each member of `v`, and on each symbol that is not a nonterminal, the sets `fs` hold every
/// iterate of the FIRST equations: together with `first_sound`, they are the least solution there.
pub open spec fn first_above_iterates(keys: Seq<Symbol>, rules: Seq<RuleView>, fs: Seq<Set<nat>>, v: Set<nat>) -> bool {
    forall|k: nat, j: int|
        0 <= j < keys.len() && (v.contains(j as nat) || keys[j].symbol_type != SymbolType::Nonterminal)
            ==> #[trigger] first_iter(keys, rules, k)[j].subset_of(fs[j])
}

/// Sets that lie below `b` on the symbols a FIRST computation under `b` reads read no further.
proof fn lemma_stop_within(a: Seq<Set<nat>>, b: Seq<Set<nat>>, body: Seq<Symbol>, k: int)
    requires
        0 <= k <= body.len(),
        nullable_upto(b, body, k),
        forall|i: int|
            0 <= i < stop_from(b, body, 0) ==> #[trigger] set_at(a, body[i].id as int).subset_of(
                set_at(b, body[i].id as int),
            ),
    ensures
        stop_from(a, body, k) <= stop_from(b, body, k),
    decreases body.len() - k,
{
    if k < body.len() {
        lemma_stop_from(b, body, k);
        lemma_stop_bounds(b, body, k + 1);
        assert(set_at(a, body[k].id as int).subset_of(set_at(b, body[k].id as int)));
        if set_at(a, body[k].id as int).contains(0) {
            assert(nullable_upto(b, body, k + 1));
            lemma_stop_within(a, b, body, k + 1);
        }
    }
}

proof fn lemma_nullable_within(a: Seq<Set<nat>>, b: Seq<Set<nat>>, body: Seq<Symbol>, j: int)
    requires
        0 <= j <= body.len(),
        nullable_upto(a, body, j),
        forall|i: int|
            0 <= i < stop_from(b, body, 0) ==> #[trigger] set_at(a, body[i].id as int).subset_of(
                set_at(b, body[i].id as int),
            ),
    ensures
        nullable_upto(b, body, j),
    decreases j,
{
    if j > 0 {
        lemma_nullable_within(a, b, body, j - 1);
        lemma_stop_from(b, body, j - 1);
        lemma_stop_bounds(b, body, j);
        assert(set_at(a, body[j - 1].id as int).contains(0));
        assert(set_at(a, body[j - 1].id as int).subset_of(set_at(b, body[j - 1].id as int)));
    }
}

proof fn lemma_union_upto_within(a: Seq<Set<nat>>, b: Seq<Set<nat>>, body: Seq<Symbol>, n: int, n2: int)
    requires
        n <= n2,
        forall|i: int| 0 <= i < n2 ==> #[trigger] set_at(a, body[i].id as int).subset_of(set_at(b, body[i].id as int)),
    ensures
        union_upto(a, body, n).subset_of(union_upto(b, body, n2)),
    decreases n2,
{
    if n2 > 0 {
        if n == n2 {
            lemma_union_upto_within(a, b, body, n - 1, n2 - 1);
            assert(set_at(a, body[n - 1].id as int).subset_of(set_at(b, body[n - 1].id as int)));
        } else {
            lemma_union_upto_within(a, b, body, n, n2 - 1);
        }
    }
}

/// FIRST of a body grows with the sets on the symbols a FIRST computation under the larger
/// sets reads.
proof fn lemma_body_first_within(a: Seq<Set<nat>>, b: Seq<Set<nat>>, body: Seq<Symbol>)
    requires
        forall|i: int|
            0 <= i < stop_from(b, body, 0) ==> #[trigger] set_at(a, body[i].id as int).subset_of(
                set_at(b, body[i].id as int),
            ),
    ensures
        body_first(a, body).subset_of(body_first(b, body)),
{
    lemma_stop_within(a, b, body, 0);
    lemma_union_upto_within(a, b, body, stop_from(a, body, 0), stop_from(b, body, 0));
    if nullable_upto(a, body, body.len() as int) {
        lemma_nullable_within(a, b, body, body.len() as int);
    }
}

/// Sets `fs` that contain a FIRST iterate on the members of `v` and the symbols that are not
/// nonterminals, and that satisfy the equations on `v`, contain the next iterate there too.
proof fn lemma_first_least(keys: Seq<Symbol>, rules: Seq<RuleView>, fs: Seq<Set<nat>>, v: Set<nat>, k: nat)
    requires
        fs.len() == keys.len(),
        forall|i: int| 0 <= i < keys.len() ==> (#[trigger] keys[i]).id == i,
        forall|i: int|
            0 <= i < keys.len() && keys[i].symbol_type != SymbolType::Nonterminal ==> #[trigger] fs[i]
                == Set::<nat>::empty().insert(i as nat),
        forall|y: nat|
            #[trigger] v.contains(y) ==> y < keys.len() && keys[y as int].symbol_type == SymbolType::Nonterminal
                && first_closed_at(fs, rules_for(keys, rules, y), v, y) && forall|m: int, i: int|
                0 <= m < rules_for(keys, rules, y).len() && 0 <= i < rules_for(keys, rules, y)[m].1.len()
                    ==> known(keys, #[trigger] rules_for(keys, rules, y)[m].1[i]),
    ensures
        forall|j: int|
            0 <= j < keys.len() && (v.contains(j as nat) || keys[j].symbol_type != SymbolType::Nonterminal)
                ==> #[trigger] first_iter(keys, rules, k)[j].subset_of(fs[j]),
    decreases k,
{
    lemma_first_iter_len(keys, rules, k);
    if k > 0 {
        let a = first_iter(keys, rules, (k - 1) as nat);
        lemma_first_least(keys, rules, fs, v, (k - 1) as nat);
        lemma_first_iter_len(keys, rules, (k - 1) as nat);
        assert forall|j: int|
            0 <= j < keys.len() && (v.contains(j as nat) || keys[j].symbol_type != SymbolType::Nonterminal)
                implies #[trigger] first_iter(keys, rules, k)[j].subset_of(fs[j]) by {
            assert(a[j].subset_of(fs[j]));
            if keys[j].symbol_type == SymbolType::Nonterminal {
                let y = j as nat;
                let rs = rules_for(keys, rules, y);
                assert(first_closed_at(fs, rs, v, y));
                lemma_rules_first_within(keys, rules, fs, v, a, y, rs.len() as int);
            }
        }
    }
}

proof fn lemma_rules_first_within(
    keys: Seq<Symbol>,
    rules: Seq<RuleView>,
    fs: Seq<Set<nat>>,
    v: Set<nat>,
    a: Seq<Set<nat>>,
    y: nat,
    m: int,
)
    requires
        fs.len() == keys.len(),
        a.len() == keys.len(),
        v.contains(y),
        m <= rules_for(keys, rules, y).len(),
        forall|i: int| 0 <= i < keys.len() ==> (#[trigger] keys[i]).id == i,
        forall|j: int|
            0 <= j < keys.len() && (v.contains(j as nat) || keys[j].symbol_type != SymbolType::Nonterminal)
                ==> #[trigger] a[j].subset_of(fs[j]),
        forall|y: nat|
            #[trigger] v.contains(y) ==> y < keys.len() && keys[y as int].symbol_type == SymbolType::Nonterminal
                && first_closed_at(fs, rules_for(keys, rules, y), v, y) && forall|m: int, i: int|
                0 <= m < rules_for(keys, rules, y).len() && 0 <= i < rules_for(keys, rules, y)[m].1.len()
                    ==> known(keys, #[trigger] rules_for(keys, rules, y)[m].1[i]),
    ensures
        rules_first(a, rules_for(keys, rules, y), m).subset_of(fs[y as int]),
    decreases m,
{
    let rs = rules_for(keys, rules, y);
    if m > 0 {
        lemma_rules_first_within(keys, rules, fs, v, a, y, m - 1);
        let body = rs[m - 1].1;
        assert(first_closed_at(fs, rs, v, y));
        assert(body_first(fs, rs[m - 1].1).subset_of(fs[y as int]));
        assert forall|i: int| 0 <= i < stop_from(fs, body, 0) implies #[trigger] set_at(a, body[i].id as int).subset_of(
            set_at(fs, body[i].id as int),
        ) by {
            lemma_stop_bounds(fs, body, 0);
            assert(known(keys, rs[m - 1].1[i]));
            let j = body[i].id as int;
            assert(keys[j] == body[i]);
            if body[i].symbol_type == SymbolType::Nonterminal {
                assert(v.contains(rs[m - 1].1[i].id as nat));
            }
            assert(a[j].subset_of(fs[j]));
        }
        lemma_body_first_within(a, fs, body);
    }
}


/// Every id in the sets `fs` is below `n`.
pub open spec fn ids_below(fs: Seq<Set<nat>>, n: nat) -> bool {
    forall|i: int, e: nat| 0 <= i < fs.len() && #[trigger] fs[i].contains(e) ==> e < n
}

proof fn lemma_union_upto_ids(fs: Seq<Set<nat>>, body: Seq<Symbol>, k: int, n: nat)
    requires
        ids_below(fs, n),
    ensures
        forall|e: nat| #[trigger] union_upto(fs, body, k).contains(e) ==> e < n,
    decreases k,
{
    if k > 0 {
        lemma_union_upto_ids(fs, body, k - 1, n);
        let j = body[k - 1].id as int;
        assert(union_upto(fs, body, k) == union_upto(fs, body, k - 1).union(set_at(fs, j).remove(0)));
        assert forall|e: nat| #[trigger] union_upto(fs, body, k).contains(e) implies e < n by {
            if !union_upto(fs, body, k - 1).contains(e) {
                assert(set_at(fs, j).contains(e));
                assert(0 <= j < fs.len());
                assert(fs[j].contains(e));
            }
        }
    }
}

proof fn lemma_rules_first_ids(fs: Seq<Set<nat>>, rs: Seq<RuleView>, m: int, n: nat)
    requires
        ids_below(fs, n),
        n >= 1,
    ensures
        forall|e: nat| #[trigger] rules_first(fs, rs, m).contains(e) ==> e < n,
    decreases m,
{
    if m > 0 {
        lemma_rules_first_ids(fs, rs, m - 1, n);
        let body = rs[m - 1].1;
        lemma_union_upto_ids(fs, body, stop_from(fs, body, 0), n);
        assert(rules_first(fs, rs, m) == rules_first(fs, rs, m - 1).union(body_first(fs, body)));
        assert forall|e: nat| #[trigger] rules_first(fs, rs, m).contains(e) implies e < n by {
            if !rules_first(fs, rs, m - 1).contains(e) && e != 0 {
                assert(union_upto(fs, body, stop_from(fs, body, 0)).contains(e));
            }
        }
    }
}

/// Every id in an iterate of the FIRST equations is the id of a symbol.
proof fn lemma_first_iter_ids(keys: Seq<Symbol>, rules: Seq<RuleView>, k: nat)
    requires
        keys.len() >= 1,
    ensures
        ids_below(first_iter(keys, rules, k), keys.len()),
    decreases k,
{
    lemma_first_iter_len(keys, rules, k);
    if k > 0 {
        let a = first_iter(keys, rules, (k - 1) as nat);
        lemma_first_iter_ids(keys, rules, (k - 1) as nat);
        lemma_first_iter_len(keys, rules, (k - 1) as nat);
        assert forall|i: int, e: nat| 0 <= i < first_iter(keys, rules, k).len() && #[trigger] first_iter(
            keys,
            rules,
            k,
        )[i].contains(e) implies e < keys.len() by {
            let rs = rules_for(keys, rules, i as nat);
            lemma_rules_first_ids(a, rs, rs.len() as int, keys.len());
            if a[i].contains(e) {
            }
        }
    }
}

proof fn lemma_follow_suffix_ids(fs: Seq<Set<nat>>, hf: Set<nat>, body: Seq<Symbol>, t: int, n: nat)
    requires
        ids_below(fs, n),
        forall|e: nat| #[trigger] hf.contains(e) ==> e < n,
        forall|j: int| 0 <= j < body.len() ==> (#[trigger] body[j]).id < fs.len(),
        t <= body.len(),
    ensures
        forall|e: nat| #[trigger] follow_suffix(fs, hf, body, t).contains(e) ==> e < n,
    decreases t,
{
    if t > 0 {
        lemma_follow_suffix_ids(fs, hf, body, t - 1, n);
        let s = body[body.len() - t];
        assert(s.id < fs.len());
        let prev = follow_suffix(fs, hf, body, t - 1);
        assert(follow_suffix(fs, hf, body, t) == if fs[s.id as int].contains(0) {
            prev.union(fs[s.id as int].remove(0))
        } else {
            fs[s.id as int]
        });
        assert forall|e: nat| #[trigger] follow_suffix(fs, hf, body, t).contains(e) implies e < n by {
            if !prev.contains(e) {
                assert(fs[s.id as int].contains(e));
            }
        }
    }
}

/// Every id in an iterate of the FOLLOW equations over a walk-closed set is the id of a symbol,
/// when the FIRST sets hold only ids of symbols.
proof fn lemma_follow_iter_ids(
    keys: Seq<Symbol>,
    rules: Seq<RuleView>,
    start: Symbol,
    c: Set<nat>,
    fs: Seq<Set<nat>>,
    k: nat,
)
    requires
        keys.len() >= 2,
        fs.len() == keys.len(),
        ids_below(fs, keys.len()),
        walk_closed(keys, rules, start, c),
    ensures
        ids_below(follow_iter(keys, rules, start, c, fs, k), keys.len()),
    decreases k,
{
    lemma_follow_iter_len(keys, rules, start, c, fs, k);
    let w = follow_iter(keys, rules, start, c, fs, k);
    if k > 0 {
        let a = follow_iter(keys, rules, start, c, fs, (k - 1) as nat);
        lemma_follow_iter_ids(keys, rules, start, c, fs, (k - 1) as nat);
        lemma_follow_iter_len(keys, rules, start, c, fs, (k - 1) as nat);
        assert forall|i: int, e: nat| 0 <= i < w.len() && #[trigger] w[i].contains(e) implies e < keys.len() by {
            if !a[i].contains(e) {
                assert(follow_gain(keys, rules, c, fs, a, i as nat).contains(e));
                let (x, m, t) = choose|x: nat, m: int, t: int|
                    #![trigger follow_suffix(fs, set_at(a, rules_for(keys, rules, x)[m].0.id as int), rules_for(keys, rules, x)[m].1, t)]
                    c.contains(x) && 0 <= m < rules_for(keys, rules, x).len() && 0 <= t < rules_for(keys, rules, x)[m].1.len()
                        && rules_for(keys, rules, x)[m].1[rules_for(keys, rules, x)[m].1.len() - 1 - t].id == i
                        && follow_suffix(fs, set_at(a, rules_for(keys, rules, x)[m].0.id as int), rules_for(keys, rules, x)[m].1, t).contains(e);
                let r = rules_for(keys, rules, x)[m];
                assert(rule_ok(keys, c, r));
                assert forall|j: int| 0 <= j < r.1.len() implies (#[trigger] r.1[j]).id < fs.len() by {
                    assert(known(keys, r.1[j]));
                }
                let hs = set_at(a, r.0.id as int);
                assert forall|e2: nat| #[trigger] hs.contains(e2) implies e2 < keys.len() by {
                    assert(a[r.0.id as int].contains(e2));
                }
                lemma_follow_suffix_ids(fs, hs, r.1, t, keys.len());
            }
        }
    }
}

/// Sets that hold only ids below `n` hold at most `n` ids each.
proof fn lemma_ids_below_len(fs: Seq<Set<nat>>, n: nat)
    requires
        ids_below(fs, n),
    ensures
        forall|i: int| 0 <= i < fs.len() ==> (#[trigger] fs[i]).finite() && fs[i].len() <= n,
{
    crate::symbol::lemma_nat_range(n);
    assert forall|i: int| 0 <= i < fs.len() implies (#[trigger] fs[i]).finite() && fs[i].len() <= n by {
        assert(fs[i].subset_of(crate::symbol::nat_range(n)));
        vstd::set_lib::lemma_len_subset(fs[i], crate::symbol::nat_range(n));
    }
}

/// The number of nonterminals among the first `n` symbols of `keys`.
pub open spec fn nonterminal_count(keys: Seq<Symbol>, n: int) -> nat
    decreases n,
{
    if n <= 0 {
        0
    } else {
        nonterminal_count(keys, n - 1) + if keys[n - 1].symbol_type == SymbolType::Nonterminal {
            1nat
        } else {
            0nat
        }
    }
}

/// The total size of the sets `fs` at the nonterminals among the first `n` symbols of `keys`.
pub open spec fn nonterminal_total(keys: Seq<Symbol>, fs: Seq<Set<nat>>, n: int) -> nat
    decreases n,
{
    if n <= 0 {
        0
    } else {
        nonterminal_total(keys, fs, n - 1) + if keys[n - 1].symbol_type == SymbolType::Nonterminal {
            fs[n - 1].len()
        } else {
            0nat
        }
    }
}

proof fn lemma_nonterminal_total_grows(keys: Seq<Symbol>, a: Seq<Set<nat>>, b: Seq<Set<nat>>, n: int, x: int)
    requires
        0 <= n <= a.len(),
        a.len() == b.len(),
        forall|i: int| 0 <= i < b.len() ==> (#[trigger] b[i]).finite() && a[i].subset_of(b[i]),
        0 <= x < n ==> grew(a[x], b[x]) && keys[x].symbol_type == SymbolType::Nonterminal,
    ensures
        nonterminal_total(keys, a, n) <= nonterminal_total(keys, b, n),
        0 <= x < n ==> nonterminal_total(keys, a, n) < nonterminal_total(keys, b, n),
    decreases n,
{
    if n > 0 {
        lemma_nonterminal_total_grows(keys, a, b, n - 1, if x < n - 1 { x } else { -1 });
        let j = n - 1;
        assert(b[j].finite());
        vstd::set_lib::lemma_len_subset(a[j], b[j]);
        if x == j {
            let e = choose|e: nat| b[j].contains(e) && !a[j].contains(e);
            a[j].lemma_subset_not_in_lt(b[j], e);
        }
    }
}

proof fn lemma_nonterminal_total_bound(keys: Seq<Symbol>, fs: Seq<Set<nat>>, n: int, cap: nat)
    requires
        0 <= n <= fs.len(),
        forall|i: int| 0 <= i < fs.len() ==> (#[trigger] fs[i]).len() <= cap,
    ensures
        nonterminal_total(keys, fs, n) <= nonterminal_count(keys, n) * cap,
    decreases n,
{
    if n > 0 {
        lemma_nonterminal_total_bound(keys, fs, n - 1, cap);
        let c0 = nonterminal_count(keys, n - 1);
        if keys[n - 1].symbol_type == SymbolType::Nonterminal {
            assert(fs[n - 1].len() <= cap);
            assert(c0 * cap + cap == (c0 + 1) * cap) by (nonlinear_arith);
        }
    }
}


/// Each member of `fresh` has the nonterminals of the bodies of its rules in `v`.
pub open spec fn bodies_in(keys: Seq<Symbol>, rules: Seq<RuleView>, fresh: Set<nat>, v: Set<nat>) -> bool {
    forall|y: nat, m: int, i: int|
        fresh.contains(y) && 0 <= m < rules_for(keys, rules, y).len() && 0 <= i < rules_for(keys, rules, y)[m].1.len()
            && (#[trigger] rules_for(keys, rules, y)[m].1[i]).symbol_type == SymbolType::Nonterminal ==> v.contains(
            rules_for(keys, rules, y)[m].1[i].id as nat,
        )
}

proof fn lemma_bodies_in_grow(
    keys: Seq<Symbol>,
    rules: Seq<RuleView>,
    a: Set<nat>,
    v: Set<nat>,
    b: Set<nat>,
    w: Set<nat>,
)
    requires
        bodies_in(keys, rules, a, v),
        bodies_in(keys, rules, b, w),
        v.subset_of(w),
    ensures
        bodies_in(keys, rules, a.union(b), w),
{
}

/// A nonterminal is met by every walk from itself.
proof fn lemma_in_own_walk(keys: Seq<Symbol>, rules: Seq<RuleView>, s: Symbol)
    ensures
        s.symbol_type == SymbolType::Nonterminal ==> in_every_walk(keys, rules, s, s.id as nat),
{
}

/// What every walk from `b` meets, every walk from `a` meets, when every walk from `a` meets
/// the nonterminal `b`.
proof fn lemma_walk_trans(keys: Seq<Symbol>, rules: Seq<RuleView>, a: Symbol, b: Symbol, y: nat)
    requires
        b.symbol_type == SymbolType::Nonterminal,
        in_every_walk(keys, rules, a, b.id as nat),
        in_every_walk(keys, rules, b, y),
    ensures
        in_every_walk(keys, rules, a, y),
{
    assert forall|cc: Set<nat>| #[trigger] walk_closed(keys, rules, a, cc) implies cc.contains(y) by {
        assert(cc.contains(b.id as nat));
        assert(walk_closed(keys, rules, b, cc));
    }
}

/// A set of nonterminals inside a set closed under the walks, holding `s` and met by every walk
/// from `s`, that holds the nonterminals of the bodies of its members' rules, is exactly what
/// every walk from `s` meets.
proof fn lemma_visited_exact(keys: Seq<Symbol>, rules: Seq<RuleView>, s: Symbol, c: Set<nat>, v: Set<nat>)
    requires
        s.symbol_type == SymbolType::Nonterminal,
        set_closed(keys, rules, c),
        c.contains(s.id as nat),
        v.contains(s.id as nat),
        v.subset_of(every_walk_set(keys, rules, s)),
        bodies_in(keys, rules, v, v),
    ensures
        v == every_walk_set(keys, rules, s),
{
    assert(walk_closed(keys, rules, s, c));
    assert forall|y: nat| #[trigger] v.contains(y) implies c.contains(y) by {
        assert(in_every_walk(keys, rules, s, y));
    }
    assert forall|y: nat| #[trigger] v.contains(y) implies {
        &&& y < 256
        &&& y < keys.len()
        &&& keys[y as int].symbol_type == SymbolType::Nonterminal
        &&& forall|m: int|
            0 <= m < rules_for(keys, rules, y).len() ==> rule_ok(keys, v, #[trigger] rules_for(keys, rules, y)[m])
    } by {
        assert(c.contains(y));
        assert forall|m: int| 0 <= m < rules_for(keys, rules, y).len() implies rule_ok(
            keys,
            v,
            #[trigger] rules_for(keys, rules, y)[m],
        ) by {
            assert(rule_ok(keys, c, rules_for(keys, rules, y)[m]));
        }
    }
    assert(walk_closed(keys, rules, s, v));
    assert forall|y: nat| #[trigger] every_walk_set(keys, rules, s).contains(y) implies v.contains(y) by {
        assert(in_every_walk(keys, rules, s, y));
    }
    assert(v =~= every_walk_set(keys, rules, s));
}


/// Some rule of `rs` has a body whose symbols all can derive the empty string under the sets
/// `fs` (an empty body among them).
pub open spec fn has_nullable_rule(fs: Seq<Set<nat>>, rs: Seq<RuleView>) -> bool {
    exists|m: int| 0 <= m < rs.len() && #[trigger] nullable_between(fs, rs[m].1, -1, rs[m].1.len() as int)
}

proof fn lemma_union_upto_no_eps(a: Seq<Set<nat>>, body: Seq<Symbol>, k: int)
    ensures
        !union_upto(a, body, k).contains(0),
    decreases k,
{
    if k > 0 {
        lemma_union_upto_no_eps(a, body, k - 1);
    }
}

proof fn lemma_rules_first_eps(a: Seq<Set<nat>>, rs: Seq<RuleView>, m: int)
    requires
        rules_first(a, rs, m).contains(0),
        m <= rs.len(),
    ensures
        exists|mm: int| 0 <= mm < m && mm < rs.len() && #[trigger] nullable_upto(a, rs[mm].1, rs[mm].1.len() as int),
    decreases m,
{
    if m > 0 {
        if rules_first(a, rs, m - 1).contains(0) {
            lemma_rules_first_eps(a, rs, m - 1);
        } else {
            let body = rs[m - 1].1;
            assert(body_first(a, body).contains(0));
            lemma_union_upto_no_eps(a, body, stop_from(a, body, 0));
            assert(nullable_upto(a, rs[m - 1].1, rs[m - 1].1.len() as int));
        }
    }
}

/// Epsilon enters the FIRST iterate of a nonterminal only through a rule whose body is nullable
/// under an earlier iterate.
proof fn lemma_iter_eps(keys: Seq<Symbol>, rules: Seq<RuleView>, k: nat, x: nat)
    requires
        x < keys.len(),
        keys[x as int].symbol_type == SymbolType::Nonterminal,
        first_iter(keys, rules, k)[x as int].contains(0),
    ensures
        exists|k2: nat, mm: int|
            k2 < k && 0 <= mm < rules_for(keys, rules, x).len() && #[trigger] nullable_upto(
                first_iter(keys, rules, k2),
                rules_for(keys, rules, x)[mm].1,
                rules_for(keys, rules, x)[mm].1.len() as int,
            ),
    decreases k,
{
    lemma_first_iter_len(keys, rules, k);
    if k == 0 {
        assert(first_iter(keys, rules, 0)[x as int] == Set::<nat>::empty());
    } else {
        let a = first_iter(keys, rules, (k - 1) as nat);
        lemma_first_iter_len(keys, rules, (k - 1) as nat);
        let rs = rules_for(keys, rules, x);
        if a[x as int].contains(0) {
            lemma_iter_eps(keys, rules, (k - 1) as nat, x);
        } else {
            assert(rules_first(a, rs, rs.len() as int).contains(0));
            lemma_rules_first_eps(a, rs, rs.len() as int);
            let mm = choose|mm: int| 0 <= mm < rs.len() && mm < rs.len() && #[trigger] nullable_upto(a, rs[mm].1, rs[mm].1.len() as int);
            assert(nullable_upto(first_iter(keys, rules, (k - 1) as nat), rs[mm].1, rs[mm].1.len() as int));
        }
    }
}

/// On a nonterminal that every walk meets, the FIRST set holds epsilon exactly when one of its
/// rules has a body whose symbols all have FIRST sets holding epsilon.
proof fn lemma_first_epsilon_law(
    keys: Seq<Symbol>,
    rules: Seq<RuleView>,
    start: Symbol,
    fs: Seq<Set<nat>>,
    v: Set<nat>,
    c0: Set<nat>,
    x: nat,
)
    requires
        forall|i: int| 0 <= i < keys.len() ==> (#[trigger] keys[i]).id == i,
        fs.len() == keys.len(),
        walk_closed(keys, rules, start, c0),
        forall|y: nat| #[trigger] v.contains(y) ==> first_closed_at(fs, rules_for(keys, rules, y), v, y),
        every_walk_set(keys, rules, start).subset_of(v),
        first_sound(keys, rules, fs),
        first_above_iterates(keys, rules, fs, every_walk_set(keys, rules, start)),
        every_walk_set(keys, rules, start).contains(x),
    ensures
        fs[x as int].contains(0) <==> has_nullable_rule(fs, rules_for(keys, rules, x)),
{
    let rs = rules_for(keys, rules, x);
    let w = every_walk_set(keys, rules, start);
    assert(in_every_walk(keys, rules, start, x));
    assert(c0.contains(x));
    if has_nullable_rule(fs, rs) {
        let m = choose|m: int| 0 <= m < rs.len() && #[trigger] nullable_between(fs, rs[m].1, -1, rs[m].1.len() as int);
        let body = rs[m].1;
        assert(rule_ok(keys, c0, rs[m]));
        assert forall|i: int| 0 <= i < body.len() implies #[trigger] set_at(fs, body[i].id as int).contains(0) by {
            assert(known(keys, rs[m].1[i]));
            assert(fs[body[i].id as int].contains(0));
        }
        assert(nullable_upto(fs, body, body.len() as int));
        assert(v.contains(x));
        assert(first_closed_at(fs, rs, v, x));
        assert(body_first(fs, rs[m].1).subset_of(fs[x as int]));
        assert(body_first(fs, body).contains(0));
    }
    if fs[x as int].contains(0) {
        let k0 = choose|k: nat| below(fs, first_iter(keys, rules, k));
        lemma_first_iter_len(keys, rules, k0);
        assert(fs[x as int].subset_of(first_iter(keys, rules, k0)[x as int]));
        lemma_iter_eps(keys, rules, k0, x);
        let (k2, mm) = choose|k2: nat, mm: int|
            k2 < k0 && 0 <= mm < rs.len() && #[trigger] nullable_upto(
                first_iter(keys, rules, k2),
                rs[mm].1,
                rs[mm].1.len() as int,
            );
        let it = first_iter(keys, rules, k2);
        lemma_first_iter_len(keys, rules, k2);
        let body = rs[mm].1;
        assert(rule_ok(keys, c0, rs[mm]));
        assert forall|i: int| -1 < i < body.len() implies #[trigger] fs[body[i].id as int].contains(0) by {
            assert(known(keys, rs[mm].1[i]));
            let j = body[i].id as int;
            assert(set_at(it, j).contains(0));
            if body[i].symbol_type == SymbolType::Nonterminal {
                lemma_every_walk_body(keys, rules, start, x, mm, i);
                assert(w.contains(j as nat));
            }
            assert(it[j].subset_of(fs[j]));
        }
        assert(nullable_between(fs, rs[mm].1, -1, rs[mm].1.len() as int));
    }
}


/// At the nonterminal `x` with rules `rs`, the FIRST set holds, besides epsilon, exactly what
/// the bodies start with: the FIRST set, without epsilon, of each body symbol reached past
/// symbols that all can derive the empty string.
pub open spec fn first_from_rules(fs: Seq<Set<nat>>, rs: Seq<RuleView>, x: nat) -> bool {
    &&& forall|m: int, j: int|
        0 <= m < rs.len() && 0 <= j < rs[m].1.len() && #[trigger] nullable_between(fs, rs[m].1, -1, j)
            ==> fs[rs[m].1[j].id as int].remove(0).subset_of(fs[x as int])
    &&& forall|e: nat|
        e != 0 && #[trigger] fs[x as int].contains(e) ==> exists|m: int, j: int|
            0 <= m < rs.len() && 0 <= j < rs[m].1.len() && nullable_between(fs, rs[m].1, -1, j)
                && #[trigger] fs[rs[m].1[j].id as int].contains(e)
}

proof fn lemma_union_upto_covers(a: Seq<Set<nat>>, body: Seq<Symbol>, k: int, j: int)
    requires
        0 <= j < k,
    ensures
        set_at(a, body[j].id as int).remove(0).subset_of(union_upto(a, body, k)),
    decreases k,
{
    if j < k - 1 {
        lemma_union_upto_covers(a, body, k - 1, j);
    }
}

proof fn lemma_union_upto_elem(a: Seq<Set<nat>>, body: Seq<Symbol>, k: int, e: nat)
    requires
        union_upto(a, body, k).contains(e),
    ensures
        exists|j: int| 0 <= j < k && #[trigger] set_at(a, body[j].id as int).remove(0).contains(e),
    decreases k,
{
    if k > 0 {
        if union_upto(a, body, k - 1).contains(e) {
            lemma_union_upto_elem(a, body, k - 1, e);
        } else {
            assert(set_at(a, body[k - 1].id as int).remove(0).contains(e));
        }
    }
}

/// A symbol before the last one a FIRST computation reads can derive the empty string.
proof fn lemma_stop_prefix(a: Seq<Set<nat>>, body: Seq<Symbol>, k: int, i: int)
    requires
        0 <= k <= i,
        i + 1 < stop_from(a, body, k),
    ensures
        set_at(a, body[i].id as int).contains(0),
    decreases i - k,
{
    if k < body.len() && set_at(a, body[k].id as int).contains(0) && k < i {
        lemma_stop_prefix(a, body, k + 1, i);
    }
}

proof fn lemma_rules_first_elem(a: Seq<Set<nat>>, rs: Seq<RuleView>, m: int, e: nat)
    requires
        rules_first(a, rs, m).contains(e),
        m <= rs.len(),
    ensures
        exists|mm: int| 0 <= mm < m && #[trigger] body_first(a, rs[mm].1).contains(e),
    decreases m,
{
    if m > 0 {
        if rules_first(a, rs, m - 1).contains(e) {
            lemma_rules_first_elem(a, rs, m - 1, e);
        } else {
            assert(body_first(a, rs[m - 1].1).contains(e));
        }
    }
}

proof fn lemma_iter_elem(keys: Seq<Symbol>, rules: Seq<RuleView>, k: nat, x: nat, e: nat)
    requires
        x < keys.len(),
        keys[x as int].symbol_type == SymbolType::Nonterminal,
        first_iter(keys, rules, k)[x as int].contains(e),
    ensures
        exists|k2: nat, mm: int|
            k2 < k && 0 <= mm < rules_for(keys, rules, x).len() && #[trigger] body_first(
                first_iter(keys, rules, k2),
                rules_for(keys, rules, x)[mm].1,
            ).contains(e),
    decreases k,
{
    lemma_first_iter_len(keys, rules, k);
    if k == 0 {
        assert(first_iter(keys, rules, 0)[x as int] == Set::<nat>::empty());
    } else {
        let a = first_iter(keys, rules, (k - 1) as nat);
        lemma_first_iter_len(keys, rules, (k - 1) as nat);
        let rs = rules_for(keys, rules, x);
        if a[x as int].contains(e) {
            lemma_iter_elem(keys, rules, (k - 1) as nat, x, e);
        } else {
            assert(rules_first(a, rs, rs.len() as int).contains(e));
            lemma_rules_first_elem(a, rs, rs.len() as int, e);
            let mm = choose|mm: int| 0 <= mm < rs.len() && #[trigger] body_first(a, rs[mm].1).contains(e);
            assert(body_first(first_iter(keys, rules, (k - 1) as nat), rs[mm].1).contains(e));
        }
    }
}

/// On a nonterminal that every walk meets, the FIRST set holds, besides epsilon, exactly what
/// its rule bodies start with.
proof fn lemma_first_from_rules(
    keys: Seq<Symbol>,
    rules: Seq<RuleView>,
    start: Symbol,
    fs: Seq<Set<nat>>,
    v: Set<nat>,
    c0: Set<nat>,
    x: nat,
)
    requires
        forall|i: int| 0 <= i < keys.len() ==> (#[trigger] keys[i]).id == i,
        fs.len() == keys.len(),
        walk_closed(keys, rules, start, c0),
        forall|y: nat| #[trigger] v.contains(y) ==> first_closed_at(fs, rules_for(keys, rules, y), v, y),
        every_walk_set(keys, rules, start).subset_of(v),
        first_sound(keys, rules, fs),
        first_above_iterates(keys, rules, fs, every_walk_set(keys, rules, start)),
        every_walk_set(keys, rules, start).contains(x),
    ensures
        first_from_rules(fs, rules_for(keys, rules, x), x),
{
    let rs = rules_for(keys, rules, x);
    let w = every_walk_set(keys, rules, start);
    assert(in_every_walk(keys, rules, start, x));
    assert(c0.contains(x));
    assert(v.contains(x));
    assert(first_closed_at(fs, rs, v, x));
    assert forall|m: int, j: int|
        0 <= m < rs.len() && 0 <= j < rs[m].1.len() && #[trigger] nullable_between(fs, rs[m].1, -1, j)
            implies fs[rs[m].1[j].id as int].remove(0).subset_of(fs[x as int]) by {
        let body = rs[m].1;
        assert(rule_ok(keys, c0, rs[m]));
        assert forall|i: int| 0 <= i < j implies #[trigger] set_at(fs, body[i].id as int).contains(0) by {
            assert(known(keys, rs[m].1[i]));
            assert(fs[body[i].id as int].contains(0));
        }
        assert(known(keys, rs[m].1[j]));
        lemma_stop_from(fs, body, j);
        lemma_stop_bounds(fs, body, j + 1);
        lemma_stop_bounds(fs, body, j);
        assert(stop_from(fs, body, j) >= j + 1) by {
            if set_at(fs, body[j].id as int).contains(0) {
            }
        }
        lemma_union_upto_covers(fs, body, stop_from(fs, body, 0), j);
        assert(body_first(fs, rs[m].1).subset_of(fs[x as int]));
    }
    assert forall|e: nat| e != 0 && #[trigger] fs[x as int].contains(e) implies exists|m: int, j: int|
        0 <= m < rs.len() && 0 <= j < rs[m].1.len() && nullable_between(fs, rs[m].1, -1, j)
            && #[trigger] fs[rs[m].1[j].id as int].contains(e) by {
        let k0 = choose|k: nat| below(fs, first_iter(keys, rules, k));
        lemma_first_iter_len(keys, rules, k0);
        assert(fs[x as int].subset_of(first_iter(keys, rules, k0)[x as int]));
        lemma_iter_elem(keys, rules, k0, x, e);
        let (k2, mm) = choose|k2: nat, mm: int|
            k2 < k0 && 0 <= mm < rs.len() && #[trigger] body_first(first_iter(keys, rules, k2), rs[mm].1).contains(e);
        let a = first_iter(keys, rules, k2);
        lemma_first_iter_len(keys, rules, k2);
        let body = rs[mm].1;
        let st = stop_from(a, body, 0);
        assert(union_upto(a, body, st).contains(e));
        lemma_union_upto_elem(a, body, st, e);
        let j = choose|j: int| 0 <= j < st && #[trigger] set_at(a, body[j].id as int).remove(0).contains(e);
        lemma_stop_bounds(a, body, 0);
        assert(rule_ok(keys, c0, rs[mm]));
        assert forall|i: int| -1 < i < body.len() implies (#[trigger] a[body[i].id as int]).subset_of(fs[body[i].id as int])
            && body[i].id < a.len() by {
            assert(known(keys, rs[mm].1[i]));
            if body[i].symbol_type == SymbolType::Nonterminal {
                lemma_every_walk_body(keys, rules, start, x, mm, i);
                assert(w.contains(body[i].id as nat));
            }
        }
        assert forall|i: int| -1 < i < j implies #[trigger] fs[body[i].id as int].contains(0) by {
            lemma_stop_prefix(a, body, 0, i);
            assert(a[body[i].id as int].contains(0));
        }
        assert(a[body[j].id as int].contains(e));
        assert(nullable_between(fs, rs[mm].1, -1, j));
        assert(fs[rs[mm].1[j].id as int].contains(e));
    }
}


/// Rule `r` puts `e` after its body symbol at position `p`: `e` is not epsilon and lies in the
/// FIRST set of a later symbol reached past symbols that all can derive the empty string; or
/// all later symbols can derive the empty string and `e` lies in the FOLLOW set of the head.
pub open spec fn follow_source(fs: Seq<Set<nat>>, fw: Seq<Set<nat>>, r: RuleView, p: int, e: nat) -> bool {
    ||| (e != 0 && exists|j: int|
        p < j < r.1.len() && nullable_between(fs, r.1, p, j) && #[trigger] fs[r.1[j].id as int].contains(e))
    ||| (nullable_between(fs, r.1, p, r.1.len() as int) && fw[r.0.id as int].contains(e))
}

/// The id `e` in the FOLLOW set of the symbol with id `i` is accounted for: it is end of input
/// after the start symbol, or a rule of a nonterminal that every walk meets puts it after an
/// occurrence of that symbol.
pub open spec fn follow_justified(
    keys: Seq<Symbol>,
    rules: Seq<RuleView>,
    start: Symbol,
    fs: Seq<Set<nat>>,
    fw: Seq<Set<nat>>,
    i: int,
    e: nat,
) -> bool {
    ||| (e == 1 && keys[i] == start)
    ||| exists|x: nat, m: int, p: int|
        every_walk_set(keys, rules, start).contains(x) && 0 <= m < rules_for(keys, rules, x).len() && 0 <= p
            < rules_for(keys, rules, x)[m].1.len() && rules_for(keys, rules, x)[m].1[p].id == i && #[trigger] follow_source(
            fs,
            fw,
            rules_for(keys, rules, x)[m],
            p,
            e,
        )
}

proof fn lemma_suffix_elem(fs: Seq<Set<nat>>, hf: Set<nat>, fw: Seq<Set<nat>>, r: RuleView, t: int, e: nat)
    requires
        0 <= t < r.1.len(),
        follow_suffix(fs, hf, r.1, t).contains(e),
        hf.subset_of(fw[r.0.id as int]),
    ensures
        follow_source(fs, fw, r, r.1.len() - 1 - t, e),
    decreases t,
{
    let body = r.1;
    let n = body.len() as int;
    let p = n - 1 - t;
    if t > 0 {
        let s = body[n - t];
        assert(s == body[p + 1]);
        let prev = follow_suffix(fs, hf, body, t - 1);
        assert(follow_suffix(fs, hf, body, t) == if fs[s.id as int].contains(0) {
            prev.union(fs[s.id as int].remove(0))
        } else {
            fs[s.id as int]
        });
        if fs[s.id as int].contains(0) && prev.contains(e) {
            lemma_suffix_elem(fs, hf, fw, r, t - 1, e);
            assert(n - 1 - (t - 1) == p + 1);
            if e != 0 && exists|j: int|
                p + 1 < j < n && nullable_between(fs, body, p + 1, j) && #[trigger] fs[body[j].id as int].contains(e) {
                let j = choose|j: int|
                    p + 1 < j < n && nullable_between(fs, body, p + 1, j) && #[trigger] fs[body[j].id as int].contains(e);
                assert(nullable_between(fs, body, p, j));
            } else {
                assert(nullable_between(fs, body, p, n));
            }
        } else {
            assert(fs[body[p + 1].id as int].contains(e));
            assert(nullable_between(fs, body, p, p + 1));
        }
    } else {
        assert(nullable_between(fs, body, p, n));
    }
}

/// Every id in an iterate of the FOLLOW equations over what every walk meets, below the final
/// sets `fw`, is accounted for in `fw`.
proof fn lemma_iter_justified(
    keys: Seq<Symbol>,
    rules: Seq<RuleView>,
    start: Symbol,
    fs: Seq<Set<nat>>,
    fw: Seq<Set<nat>>,
    k: nat,
    kk: nat,
    i: int,
    e: nat,
)
    requires
        k <= kk,
        follow_iter(keys, rules, start, every_walk_set(keys, rules, start), fs, kk) == fw,
        0 <= i < keys.len(),
        follow_iter(keys, rules, start, every_walk_set(keys, rules, start), fs, k)[i].contains(e),
    ensures
        follow_justified(keys, rules, start, fs, fw, i, e),
    decreases k,
{
    let w = every_walk_set(keys, rules, start);
    lemma_follow_iter_len(keys, rules, start, w, fs, k);
    if k > 0 {
        let a = follow_iter(keys, rules, start, w, fs, (k - 1) as nat);
        lemma_follow_iter_len(keys, rules, start, w, fs, (k - 1) as nat);
        if a[i].contains(e) {
            lemma_iter_justified(keys, rules, start, fs, fw, (k - 1) as nat, kk, i, e);
        } else {
            assert(follow_gain(keys, rules, w, fs, a, i as nat).contains(e));
            let (x, m, t) = choose|x: nat, m: int, t: int|
                #![trigger follow_suffix(fs, set_at(a, rules_for(keys, rules, x)[m].0.id as int), rules_for(keys, rules, x)[m].1, t)]
                w.contains(x) && 0 <= m < rules_for(keys, rules, x).len() && 0 <= t < rules_for(keys, rules, x)[m].1.len()
                    && rules_for(keys, rules, x)[m].1[rules_for(keys, rules, x)[m].1.len() - 1 - t].id == i
                    && follow_suffix(fs, set_at(a, rules_for(keys, rules, x)[m].0.id as int), rules_for(keys, rules, x)[m].1, t).contains(e);
            let r = rules_for(keys, rules, x)[m];
            let h = r.0.id as int;
            lemma_follow_iter_grows(keys, rules, start, w, fs, (k - 1) as nat, kk);
            assert(set_at(a, h).subset_of(fw[h])) by {
                if 0 <= h < a.len() {
                    assert(a[h].subset_of(fw[h]));
                }
            }
            lemma_suffix_elem(fs, set_at(a, h), fw, r, t, e);
            let p = r.1.len() - 1 - t;
            assert(follow_source(fs, fw, rules_for(keys, rules, x)[m], p, e));
        }
    } else {
        assert(follow_iter(keys, rules, start, w, fs, 0)[i].contains(e));
        assert(keys[i] == start);
    }
}

} // verus!
