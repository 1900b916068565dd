use vstd::prelude::*;
use crate::ast::{
    all_known, flat, flat_rules, known, lemma_quote_view, rule_views, rules_known, term_view, views,
    Engine, Primitive, Rule, RuleView, Term, TermView,
};

verus! {

/// How many quotes an operator takes from its left.
pub open spec fn arity(p: Primitive) -> int {
    match p {
        Primitive::Copy | Primitive::Discard | Primitive::Wrap | Primitive::Unwrap => 1,
        Primitive::Swap | Primitive::Combine => 2,
    }
}

/// The length of the built-in match that ends at `e`: the operator and its
/// operands, all of them quotes; 0 where no operator fires there.
pub open spec fn builtin_len(s: Seq<TermView>, e: int) -> int {
    if 0 <= e < s.len() {
        match s[e] {
            TermView::Prim(p) => if arity(p) <= e && s[e - 1] is Quote && (arity(p) == 1 || s[e
                - 2] is Quote) {
                arity(p) + 1
            } else {
                0
            },
            _ => 0,
        }
    } else {
        0
    }
}

/// What an operator at `e` leaves in place of its operands and itself.
pub open spec fn builtin_output(p: Primitive, s: Seq<TermView>, e: int) -> Seq<TermView> {
    match p {
        Primitive::Copy => seq![s[e - 1], s[e - 1]],
        Primitive::Discard => Seq::empty(),
        Primitive::Wrap => seq![TermView::Quote(seq![s[e - 1]])],
        Primitive::Unwrap => s[e - 1]->Quote_0,
        Primitive::Swap => seq![s[e - 1], s[e - 2]],
        Primitive::Combine => seq![TermView::Quote(s[e - 2]->Quote_0 + s[e - 1]->Quote_0)],
    }
}

/// `s` with the `len` terms that end at `e` replaced by `out`.
pub open spec fn splice(s: Seq<TermView>, e: int, len: int, out: Seq<TermView>) -> Seq<
    TermView,
> {
    s.subrange(0, e + 1 - len) + out + s.subrange(e + 1, s.len() as int)
}

/// The redex of `r` is the run of terms that ends at `e`.
pub open spec fn fits(r: RuleView, s: Seq<TermView>, e: int) -> bool {
    &&& 0 < r.redex.len() <= e + 1
    &&& e < s.len()
    &&& s.subrange(e + 1 - r.redex.len(), e + 1) == r.redex
}

/// Among the rules that fit at `e`, rule `i` has the longest redex and comes
/// first among those of that length; it is not shorter than the built-in match.
pub open spec fn wins(rules: Seq<RuleView>, s: Seq<TermView>, e: int, i: int) -> bool {
    &&& 0 <= i < rules.len()
    &&& fits(rules[i], s, e)
    &&& builtin_len(s, e) <= rules[i].redex.len()
    &&& forall|j: int|
        0 <= j < rules.len() && #[trigger] fits(rules[j], s, e) ==> rules[j].redex.len()
            < rules[i].redex.len() || (rules[j].redex.len() == rules[i].redex.len() && i <= j)
}

/// Some rule or operator matches the terms that end at `e`.
pub open spec fn matches_at(rules: Seq<RuleView>, s: Seq<TermView>, e: int) -> bool {
    builtin_len(s, e) > 0 || exists|i: int| 0 <= i < rules.len() && #[trigger] fits(rules[i], s, e)
}

/// The reduction at `e`: the winning rule, else the operator.
pub open spec fn reduce_at(rules: Seq<RuleView>, s: Seq<TermView>, e: int) -> Seq<TermView> {
    if exists|i: int| wins(rules, s, e, i) {
        let i = choose|i: int| wins(rules, s, e, i);
        splice(s, e, rules[i].redex.len() as int, rules[i].reduction)
    } else {
        let p = s[e]->Prim_0;
        splice(s, e, arity(p) + 1, builtin_output(p, s, e))
    }
}

/// `e` is the last position at which a match ends.
pub open spec fn rightmost(rules: Seq<RuleView>, s: Seq<TermView>, e: int) -> bool {
    &&& 0 <= e < s.len()
    &&& matches_at(rules, s, e)
    &&& forall|k: int| e < k < s.len() ==> !#[trigger] matches_at(rules, s, k)
}

/// No rule and no operator matches anywhere.
pub open spec fn normal(rules: Seq<RuleView>, s: Seq<TermView>) -> bool {
    forall|e: int| 0 <= e < s.len() ==> !#[trigger] matches_at(rules, s, e)
}

/// One reduction, at the rightmost position where a match ends.
pub open spec fn one_step(rules: Seq<RuleView>, s: Seq<TermView>) -> Seq<TermView> {
    reduce_at(rules, s, choose|e: int| rightmost(rules, s, e))
}

/// At most `n` reductions, stopping early at a normal form.
pub open spec fn run(rules: Seq<RuleView>, s: Seq<TermView>, n: nat) -> Seq<TermView>
    decreases n,
{
    if n == 0 || normal(rules, s) {
        s
    } else {
        run(rules, one_step(rules, s), (n - 1) as nat)
    }
}

proof fn lemma_views_concat(a: Seq<Term>, b: Seq<Term>)
    ensures
        views(a + b) == views(a) + views(b),
{
    assert(views(a + b) =~= views(a) + views(b));
}

proof fn lemma_views_subrange(a: Seq<Term>, i: int, j: int)
    requires
        0 <= i <= j <= a.len(),
    ensures
        views(a.subrange(i, j)) == views(a).subrange(i, j),
{
    assert(views(a.subrange(i, j)) =~= views(a).subrange(i, j));
}

proof fn lemma_rightmost_unique(rules: Seq<RuleView>, s: Seq<TermView>, e: int)
    requires
        rightmost(rules, s, e),
    ensures
        (choose|k: int| rightmost(rules, s, k)) == e,
{
    let k = choose|k: int| rightmost(rules, s, k);
    assert(rightmost(rules, s, k));
    if k < e {
        assert(!matches_at(rules, s, e));
    } else if e < k {
        assert(!matches_at(rules, s, k));
    }
}

proof fn lemma_winner_unique(rules: Seq<RuleView>, s: Seq<TermView>, e: int, i: int)
    requires
        wins(rules, s, e, i),
    ensures
        (choose|k: int| wins(rules, s, e, k)) == i,
{
    let k = choose|k: int| wins(rules, s, e, k);
    assert(wins(rules, s, e, k));
    assert(fits(rules[i], s, e));
    assert(fits(rules[k], s, e));
}

proof fn lemma_splice_known(n: nat, s: Seq<TermView>, e: int, len: int, out: Seq<TermView>)
    requires
        all_known(n, s),
        all_known(n, out),
        0 <= e + 1 - len <= e + 1 <= s.len(),
    ensures
        all_known(n, splice(s, e, len, out)),
{
    let r = splice(s, e, len, out);
    let a = e + 1 - len;
    assert forall|i: int| 0 <= i < r.len() implies known(n, #[trigger] r[i]) by {
        if i < a {
            assert(r[i] == s[i]);
        } else if i < a + out.len() {
            assert(r[i] == out[i - a]);
        } else {
            assert(r[i] == s[i - a - out.len() + e + 1]);
        }
    }
}

proof fn lemma_builtin_known(n: nat, s: Seq<TermView>, e: int)
    requires
        all_known(n, s),
        builtin_len(s, e) > 0,
    ensures
        all_known(n, builtin_output(s[e]->Prim_0, s, e)),
{
    let p = s[e]->Prim_0;
    let out = builtin_output(p, s, e);
    assert(known(n, s[e - 1]));
    if arity(p) == 2 {
        assert(known(n, s[e - 2]));
    }
    if p == Primitive::Wrap {
        let q = seq![s[e - 1]];
        assert(known(n, TermView::Quote(q)));
    }
    if p == Primitive::Combine {
        let q = s[e - 2]->Quote_0 + s[e - 1]->Quote_0;
        assert forall|i: int| 0 <= i < q.len() implies known(n, #[trigger] q[i]) by {
            if i < s[e - 2]->Quote_0.len() {
                assert(known(n, s[e - 2]->Quote_0[i]));
            } else {
                assert(known(n, s[e - 1]->Quote_0[i - s[e - 2]->Quote_0.len()]));
            }
        }
        assert(known(n, TermView::Quote(q)));
    }
    assert forall|i: int| 0 <= i < out.len() implies known(n, #[trigger] out[i]) by {
        if p == Primitive::Unwrap {
            assert(known(n, s[e - 1]->Quote_0[i]));
        }
    }
}

/// A copy of a sequence of terms that shares their quotes.
fn share_all(v: &Vec<Term>) -> (r: Vec<Term>)
    ensures
        r@ == v@,
{
    let mut r: Vec<Term> = Vec::new();
    let mut k: usize = 0;
    while k < v.len()
        invariant
            k <= v.len(),
            r@ == v@.subrange(0, k as int),
        decreases v.len() - k,
    {
        r.push(v[k].share());
        k = k + 1;
        assert(r@ =~= v@.subrange(0, k as int));
    }
    assert(v@.subrange(0, v.len() as int) =~= v@);
    r
}

/// `terms` with the terms from `start` up to `end` replaced by `out`.
fn splice_terms(terms: &Vec<Term>, start: usize, end: usize, out: Vec<Term>) -> (r: Vec<Term>)
    requires
        start <= end <= terms.len(),
    ensures
        views(r@) == views(terms@).subrange(0, start as int) + views(out@) + views(
            terms@,
        ).subrange(end as int, terms.len() as int),
{
    let mut r: Vec<Term> = Vec::new();
    let mut k: usize = 0;
    while k < start
        invariant
            k <= start <= terms.len(),
            r@ == terms@.subrange(0, k as int),
        decreases start - k,
    {
        r.push(terms[k].share());
        k = k + 1;
        assert(r@ =~= terms@.subrange(0, k as int));
    }
    let mut m: usize = 0;
    while m < out.len()
        invariant
            m <= out.len(),
            r@ == terms@.subrange(0, start as int) + out@.subrange(0, m as int),
        decreases out.len() - m,
    {
        r.push(out[m].share());
        m = m + 1;
        assert(r@ =~= terms@.subrange(0, start as int) + out@.subrange(0, m as int));
    }
    let ghost mid = r@;
    let mut n: usize = end;
    while n < terms.len()
        invariant
            end <= n <= terms.len(),
            r@ == mid + terms@.subrange(end as int, n as int),
        decreases terms.len() - n,
    {
        r.push(terms[n].share());
        n = n + 1;
        assert(r@ =~= mid + terms@.subrange(end as int, n as int));
    }
    proof {
        assert(out@.subrange(0, out.len() as int) =~= out@);
        lemma_views_concat(terms@.subrange(0, start as int), out@);
        lemma_views_concat(mid, terms@.subrange(end as int, terms.len() as int));
        lemma_views_subrange(terms@, 0, start as int);
        lemma_views_subrange(terms@, end as int, terms.len() as int);
    }
    r
}

/// Whether a term equals a word or an operator.
fn same_atom(a: &Term, b: &Term) -> (r: bool)
    requires
        !(b@ is Quote),
    ensures
        r == (a@ == b@),
{
    match (a, b) {
        (Term::Word(x), Term::Word(y)) => *x == *y,
        (Term::Prim(x), Term::Prim(y)) => *x == *y,
        _ => false,
    }
}

/// Whether the redex of `rule` is the run of terms that ends at `e`.
fn rule_fits(rule: &Rule, terms: &Vec<Term>, e: usize) -> (r: bool)
    requires
        flat(rule@.redex),
        e < terms.len(),
    ensures
        r == fits(rule@, views(terms@), e as int),
{
    let len = rule.redex.len();
    if len == 0 || len > e + 1 {
        return false;
    }
    let start = e + 1 - len;
    let ghost s = views(terms@);
    let ghost red = rule@.redex;
    let mut k: usize = 0;
    while k < len
        invariant
            len == rule.redex.len(),
            red == rule@.redex,
            flat(red),
            start + len == e + 1,
            e < terms.len(),
            s == views(terms@),
            k <= len,
            forall|m: int| 0 <= m < k ==> s[start + m] == red[m],
        decreases len - k,
    {
        assert(!(red[k as int] is Quote));
        if !same_atom(&terms[start + k], &rule.redex[k]) {
            assert(s.subrange(start as int, e + 1)[k as int] != red[k as int]);
            return false;
        }
        k = k + 1;
    }
    assert(s.subrange(start as int, e + 1) =~= red);
    true
}

/// The length of the built-in match that ends at `e`.
fn builtin_at(terms: &Vec<Term>, e: usize) -> (r: usize)
    requires
        e < terms.len(),
    ensures
        r == builtin_len(views(terms@), e as int),
{
    let ghost s = views(terms@);
    match &terms[e] {
        Term::Prim(p) => {
            let n: usize = match p {
                Primitive::Swap | Primitive::Combine => 2,
                _ => 1,
            };
            if n <= e && terms[e - 1].is_quote() && (n == 1 || terms[e - 2].is_quote()) {
                n + 1
            } else {
                0
            }
        },
        _ => 0,
    }
}

/// The first rule with the longest redex among those that fit at `e`.
fn best_rule(rules: &Vec<Rule>, terms: &Vec<Term>, e: usize) -> (r: Option<usize>)
    requires
        flat_rules(rule_views(rules@)),
        e < terms.len(),
    ensures
        ({
            let rs = rule_views(rules@);
            let s = views(terms@);
            match r {
                Some(i) => {
                    &&& i < rules.len()
                    &&& fits(rs[i as int], s, e as int)
                    &&& forall|j: int|
                        0 <= j < rs.len() && #[trigger] fits(rs[j], s, e as int)
                            ==> rs[j].redex.len() < rs[i as int].redex.len() || (
                        rs[j].redex.len() == rs[i as int].redex.len() && i <= j)
                },
                None => forall|j: int| 0 <= j < rs.len() ==> !#[trigger] fits(rs[j], s, e as int),
            }
        }),
{
    let ghost rs = rule_views(rules@);
    let ghost s = views(terms@);
    let mut best: Option<usize> = None;
    let mut k: usize = 0;
    while k < rules.len()
        invariant
            rs == rule_views(rules@),
            s == views(terms@),
            flat_rules(rs),
            e < terms.len(),
            k <= rules.len(),
            match best {
                Some(i) => {
                    &&& i < k
                    &&& fits(rs[i as int], s, e as int)
                    &&& forall|j: int|
                        0 <= j < k && #[trigger] fits(rs[j], s, e as int) ==> rs[j].redex.len()
                            < rs[i as int].redex.len() || (rs[j].redex.len()
                            == rs[i as int].redex.len() && i <= j)
                },
                None => forall|j: int| 0 <= j < k ==> !#[trigger] fits(rs[j], s, e as int),
            },
        decreases rules.len() - k,
    {
        assert(rs[k as int] == rules@[k as int]@);
        assert(flat(rs[k as int].redex));
        if rule_fits(&rules[k], terms, e) {
            match best {
                Some(i) => {
                    if rules[k].redex.len() > rules[i].redex.len() {
                        best = Some(k);
                    }
                },
                None => {
                    best = Some(k);
                },
            }
        }
        k = k + 1;
    }
    best
}

/// What an operator whose operands are quotes leaves in their place.
fn builtin_result(engine: &Engine, terms: &Vec<Term>, e: usize) -> (r: Vec<Term>)
    requires
        builtin_len(views(terms@), e as int) > 0,
    ensures
        views(r@) == builtin_output(
            views(terms@)[e as int]->Prim_0,
            views(terms@),
            e as int,
        ),
{
    let ghost s = views(terms@);
    assert(s[e as int] == term_view(terms@[e as int]));
    assert(s[e - 1] == term_view(terms@[e - 1]));
    let p = match &terms[e] {
        Term::Prim(p) => *p,
        _ => {
            assert(false);
            Primitive::Copy
        },
    };
    match p {
        Primitive::Copy => {
            let mut r: Vec<Term> = Vec::new();
            r.push(terms[e - 1].share());
            r.push(terms[e - 1].share());
            assert(views(r@) =~= seq![s[e - 1], s[e - 1]]);
            r
        },
        Primitive::Discard => {
            let r: Vec<Term> = Vec::new();
            assert(views(r@) =~= Seq::<TermView>::empty());
            r
        },
        Primitive::Wrap => {
            let mut inner: Vec<Term> = Vec::new();
            inner.push(terms[e - 1].share());
            assert(views(inner@) =~= seq![s[e - 1]]);
            let q = Term::make_quote(engine, inner).share();
            let mut r: Vec<Term> = Vec::new();
            r.push(q);
            assert(views(r@) =~= seq![TermView::Quote(seq![s[e - 1]])]);
            r
        },
        Primitive::Unwrap => match &terms[e - 1] {
            Term::Quote(a) => {
                proof {
                    lemma_quote_view(*a);
                }
                share_all(a)
            },
            _ => {
                assert(false);
                Vec::new()
            },
        },
        Primitive::Swap => {
            assert(s[e - 2] == term_view(terms@[e - 2]));
            let mut r: Vec<Term> = Vec::new();
            r.push(terms[e - 1].share());
            r.push(terms[e - 2].share());
            assert(views(r@) =~= seq![s[e - 1], s[e - 2]]);
            r
        },
        Primitive::Combine => {
            assert(s[e - 2] == term_view(terms@[e - 2]));
            match (&terms[e - 2], &terms[e - 1]) {
                (Term::Quote(a), Term::Quote(b)) => {
                    proof {
                        lemma_quote_view(*a);
                        lemma_quote_view(*b);
                    }
                    let mut joined = share_all(a);
                    let mut tail = share_all(b);
                    joined.append(&mut tail);
                    proof {
                        lemma_views_concat(a@, b@);
                    }
                    let q = Term::make_quote(engine, joined).share();
                    let mut r: Vec<Term> = Vec::new();
                    r.push(q);
                    assert(views(r@) =~= seq![
                        TermView::Quote(s[e - 2]->Quote_0 + s[e - 1]->Quote_0),
                    ]);
                    r
                },
                _ => {
                    assert(false);
                    Vec::new()
                },
            }
        },
    }
}

/// Performs one reduction at the rightmost position where a rule or an
/// operator matches; `None` when the terms are in normal form.
pub fn rewrite_step(engine: &Engine, rules: &Vec<Rule>, terms: &Vec<Term>) -> (r: Option<
    Vec<Term>,
>)
    requires
        flat_rules(rule_views(rules@)),
    ensures
        r is None <==> normal(rule_views(rules@), views(terms@)),
        r is Some ==> views(r->0@) == one_step(rule_views(rules@), views(terms@)),
        r is Some && all_known(engine.symbols().len(), views(terms@)) && rules_known(
            engine.symbols().len(),
            rule_views(rules@),
        ) ==> all_known(engine.symbols().len(), views(r->0@)),
{
    let ghost rs = rule_views(rules@);
    let ghost s = views(terms@);
    let mut e: usize = terms.len();
    while e > 0
        invariant
            rs == rule_views(rules@),
            s == views(terms@),
            flat_rules(rs),
            e <= terms.len(),
            forall|k: int| e <= k < s.len() ==> !#[trigger] matches_at(rs, s, k),
        decreases e,
    {
        e = e - 1;
        let b = builtin_at(terms, e);
        let best = best_rule(rules, terms, e);
        let chosen: Option<usize> = match best {
            Some(i) => if rules[i].redex.len() >= b {
                Some(i)
            } else {
                None
            },
            None => None,
        };
        match chosen {
            Some(i) => {
                proof {
                    assert(wins(rs, s, e as int, i as int));
                    assert(rightmost(rs, s, e as int));
                    lemma_rightmost_unique(rs, s, e as int);
                    lemma_winner_unique(rs, s, e as int, i as int);
                    let n = engine.symbols().len();
                    if all_known(n, s) && rules_known(n, rs) {
                        assert(all_known(n, rs[i as int].reduction));
                        lemma_splice_known(
                            n,
                            s,
                            e as int,
                            rs[i as int].redex.len() as int,
                            rs[i as int].reduction,
                        );
                    }
                }
                let len = rules[i].redex.len();
                let out = share_all(&rules[i].reduction);
                return Some(splice_terms(terms, e + 1 - len, e + 1, out));
            },
            None => {
                if b > 0 {
                    proof {
                        assert(rightmost(rs, s, e as int));
                        lemma_rightmost_unique(rs, s, e as int);
                        if exists|i: int| wins(rs, s, e as int, i) {
                            let i = choose|i: int| wins(rs, s, e as int, i);
                            assert(fits(rs[i], s, e as int));
                        }
                        let n = engine.symbols().len();
                        if all_known(n, s) {
                            lemma_builtin_known(n, s, e as int);
                            let p = s[e as int]->Prim_0;
                            lemma_splice_known(
                                n,
                                s,
                                e as int,
                                arity(p) + 1,
                                builtin_output(p, s, e as int),
                            );
                        }
                    }
                    let out = builtin_result(engine, terms, e);
                    return Some(splice_terms(terms, e + 1 - b, e + 1, out));
                } else {
                    proof {
                        if matches_at(rs, s, e as int) {
                            let i = choose|i: int| 0 <= i < rs.len() && #[trigger] fits(
                                rs[i],
                                s,
                                e as int,
                            );
                            assert(fits(rs[i], s, e as int));
                        }
                    }
                }
            },
        }
    }
    None
}

/// Rewrites `terms` by the built-in operators and `rules`, one reduction at a
/// time, until a normal form is reached or `max_steps` reductions are done.
pub fn rewrite(engine: &Engine, rules: &Vec<Rule>, terms: Vec<Term>, max_steps: u64) -> (r: Vec<
    Term,
>)
    requires
        flat_rules(rule_views(rules@)),
    ensures
        views(r@) == run(rule_views(rules@), views(terms@), max_steps as nat),
        all_known(engine.symbols().len(), views(terms@)) && rules_known(
            engine.symbols().len(),
            rule_views(rules@),
        ) ==> all_known(engine.symbols().len(), views(r@)),
{
    let ghost rs = rule_views(rules@);
    let ghost target = run(rs, views(terms@), max_steps as nat);
    let mut cur = terms;
    let mut left = max_steps;
    loop
        invariant
            rs == rule_views(rules@),
            flat_rules(rs),
            target == run(rs, views(terms@), max_steps as nat),
            target == run(rs, views(cur@), left as nat),
            all_known(engine.symbols().len(), views(terms@)) && rules_known(
                engine.symbols().len(),
                rs,
            ) ==> all_known(engine.symbols().len(), views(cur@)),
        decreases left,
    {
        if left == 0 {
            return cur;
        }
        match rewrite_step(engine, rules, &cur) {
            None => {
                return cur;
            },
            Some(next) => {
                cur = next;
                left = left - 1;
            },
        }
    }
}

/// A normal form is left as it is, however many reductions are allowed.
pub proof fn lemma_run_normal(rules: Seq<RuleView>, s: Seq<TermView>, n: nat)
    requires
        normal(rules, s),
    ensures
        run(rules, s, n) == s,
{
}

/// Rewriting is idempotent: once a run has reached a normal form, rewriting
/// that result again, with any budget, gives it back unchanged.
pub proof fn lemma_rewrite_idempotent(rules: Seq<RuleView>, t: Seq<TermView>, n: nat, m: nat)
    requires
        normal(rules, run(rules, t, n)),
    ensures
        run(rules, run(rules, t, n), m) == run(rules, t, n),
{
    lemma_run_normal(rules, run(rules, t, n), m);
}

/// Operators are inert without quote operands: with no rules, a sequence that
/// holds no quote is already in normal form, and rewriting returns it unchanged.
pub proof fn lemma_stuck_terms_preserved(s: Seq<TermView>, n: nat)
    requires
        flat(s),
    ensures
        normal(Seq::<RuleView>::empty(), s),
        run(Seq::<RuleView>::empty(), s, n) == s,
{
    let rules = Seq::<RuleView>::empty();
    assert forall|e: int| 0 <= e < s.len() implies !#[trigger] matches_at(rules, s, e) by {
        if builtin_len(s, e) > 0 {
            assert(s[e - 1] is Quote);
        }
    }
    lemma_run_normal(rules, s, n);
}

} // verus!
