//! Writing terms and rules as text.
use vstd::prelude::*;
use vstd::string::StringExecFns;
use crate::ast::{
    all_known, known, prim_text, rules_known, rule_views, views, Engine, Rule, RuleView, Term,
    TermView,
};

verus! {

broadcast use vstd::std_specs::vec::axiom_vec_index_decreases;

/// The pieces, separated by single spaces.
pub open spec fn join(parts: Seq<Seq<char>>) -> Seq<char>
    decreases parts.len(),
{
    if parts.len() == 0 {
        Seq::empty()
    } else if parts.len() == 1 {
        parts[0]
    } else {
        join(parts.subrange(0, parts.len() - 1)) + seq![' '] + parts.last()
    }
}

/// The text of a term: a word as interned, an operator as its symbol, a quote
/// as its contents in parentheses.
pub open spec fn show(symbols: Seq<Seq<char>>, t: TermView) -> Seq<char>
    decreases t,
{
    match t {
        TermView::Word(s) => symbols[s.index as int],
        TermView::Prim(p) => prim_text(p),
        TermView::Quote(q) => seq!['('] + join(show_parts(symbols, q)) + seq![')'],
    }
}

/// The texts of the terms, one for each.
pub open spec fn show_parts(symbols: Seq<Seq<char>>, q: Seq<TermView>) -> Seq<Seq<char>>
    decreases q,
{
    Seq::new(
        q.len(),
        |i: int|
            if 0 <= i < q.len() {
                show(symbols, q[i])
            } else {
                Seq::empty()
            },
    )
}

/// The texts of the terms, separated by single spaces.
pub open spec fn show_all(symbols: Seq<Seq<char>>, s: Seq<TermView>) -> Seq<char> {
    join(s.map_values(|t: TermView| show(symbols, t)))
}

/// The text of a rule.
pub open spec fn show_rule(symbols: Seq<Seq<char>>, r: RuleView) -> Seq<char> {
    show_all(symbols, r.redex) + seq![' ', '=', ' '] + show_all(symbols, r.reduction) + seq!['.']
}

/// The texts of the rules, each followed by a line break.
pub open spec fn show_rules(symbols: Seq<Seq<char>>, rs: Seq<RuleView>) -> Seq<char>
    decreases rs.len(),
{
    if rs.len() == 0 {
        Seq::empty()
    } else {
        show_rules(symbols, rs.subrange(0, rs.len() - 1)) + show_rule(symbols, rs.last()) + seq![
            '\n',
        ]
    }
}

proof fn lemma_show_quote(symbols: Seq<Seq<char>>, q: Seq<TermView>)
    ensures
        show(symbols, TermView::Quote(q)) == seq!['('] + show_all(symbols, q) + seq![')'],
{
    assert(show_parts(symbols, q) =~= q.map_values(|t: TermView| show(symbols, t)));
}

/// Writes a term as text.
pub fn term(engine: &Engine, t: &Term) -> (r: String)
    requires
        engine.wf(),
        known(engine.symbols().len(), t@),
    ensures
        r@ == show(engine.symbols(), t@),
    decreases t,
{
    proof {
        reveal_strlit("(");
        reveal_strlit(")");
    }
    match t {
        Term::Word(s) => String::from_str(engine.resolve(s)),
        Term::Prim(p) => p.to_string(),
        Term::Quote(q) => {
            proof {
                crate::ast::lemma_quote_view(*q);
                lemma_show_quote(engine.symbols(), views(q@));
            }
            let inner = terms(engine, q);
            let mut r = String::from_str("(");
            r.append(inner.as_str());
            r.append(")");
            r
        },
    }
}

/// Writes a sequence of terms as text, separated by single spaces.
pub fn terms(engine: &Engine, ts: &Vec<Term>) -> (r: String)
    requires
        engine.wf(),
        all_known(engine.symbols().len(), views(ts@)),
    ensures
        r@ == show_all(engine.symbols(), views(ts@)),
    decreases ts,
{
    let ghost parts = views(ts@).map_values(|t: TermView| show(engine.symbols(), t));
    let mut r = String::new();
    let mut i: usize = 0;
    while i < ts.len()
        invariant
            engine.wf(),
            all_known(engine.symbols().len(), views(ts@)),
            parts == views(ts@).map_values(|t: TermView| show(engine.symbols(), t)),
            i <= ts.len(),
            r@ == join(parts.subrange(0, i as int)),
        decreases ts.len() - i,
    {
        assert(known(engine.symbols().len(), views(ts@)[i as int]));
        let piece = term(engine, &ts[i]);
        if i > 0 {
            r.append(" ");
        }
        r.append(piece.as_str());
        proof {
            reveal_strlit(" ");
            let next = parts.subrange(0, i + 1);
            assert(next.subrange(0, i as int) =~= parts.subrange(0, i as int));
            assert(next.last() == piece@);
        }
        i = i + 1;
        assert(r@ =~= join(parts.subrange(0, i as int)));
    }
    assert(parts.subrange(0, i as int) =~= parts);
    r
}

/// Writes a rule as text: the redex, ` = `, the reduction and a period.
pub fn rule(engine: &Engine, r0: &Rule) -> (r: String)
    requires
        engine.wf(),
        all_known(engine.symbols().len(), r0@.redex),
        all_known(engine.symbols().len(), r0@.reduction),
    ensures
        r@ == show_rule(engine.symbols(), r0@),
{
    proof {
        reveal_strlit(" = ");
        reveal_strlit(".");
    }
    let mut r = terms(engine, &r0.redex);
    r.append(" = ");
    let reduction = terms(engine, &r0.reduction);
    r.append(reduction.as_str());
    r.append(".");
    r
}

/// Writes a sequence of rules as text, one per line.
pub fn rules(engine: &Engine, rs0: &Vec<Rule>) -> (r: String)
    requires
        engine.wf(),
        rules_known(engine.symbols().len(), rule_views(rs0@)),
    ensures
        r@ == show_rules(engine.symbols(), rule_views(rs0@)),
{
    let ghost rs = rule_views(rs0@);
    let mut r = String::new();
    let mut i: usize = 0;
    while i < rs0.len()
        invariant
            engine.wf(),
            rs == rule_views(rs0@),
            rules_known(engine.symbols().len(), rs),
            i <= rs0.len(),
            r@ == show_rules(engine.symbols(), rs.subrange(0, i as int)),
        decreases rs0.len() - i,
    {
        assert(rs[i as int] == rs0@[i as int]@);
        assert(all_known(engine.symbols().len(), rs[i as int].redex));
        assert(all_known(engine.symbols().len(), rs[i as int].reduction));
        let line = rule(engine, &rs0[i]);
        r.append(line.as_str());
        r.append("\n");
        proof {
            reveal_strlit("\n");
            let next = rs.subrange(0, i + 1);
            assert(next.subrange(0, i as int) =~= rs.subrange(0, i as int));
        }
        i = i + 1;
        assert(r@ =~= show_rules(engine.symbols(), rs.subrange(0, i as int)));
    }
    assert(rs.subrange(0, i as int) =~= rs);
    r
}

} // verus!
