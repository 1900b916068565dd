use std::rc::Rc;
use vstd::prelude::*;
use vstd::string::StringExecFns;
use lasso::Key;

verus! {

broadcast use vstd::std_specs::vec::axiom_vec_index_decreases;

/// The arena that owns the terms made in a session, held opaque.
#[verifier::external_type_specification]
#[verifier::external_body]
#[verifier::reject_recursive_types(T)]
pub struct ExArena<T>(typed_arena::Arena<T>);

/// The key type of the interner, held opaque.
#[verifier::external_type_specification]
#[verifier::external_body]
pub struct ExSpur(lasso::Spur);

/// The string interner, held opaque; its contents are named by `interned`.
#[verifier::external_type_specification]
#[verifier::external_body]
#[verifier::reject_recursive_types(K)]
#[verifier::reject_recursive_types(S)]
pub struct ExRodeo<K, S>(lasso::Rodeo<K, S>);

/// The strings held by an interner, in the order they were first interned:
/// the string of the key made from index `i` is the `i`-th.
pub uninterp spec fn interned(r: lasso::Rodeo) -> Seq<Seq<char>>;

/// Relies on `lasso::Rodeo::new`: a fresh interner holds no string.
#[verifier::external_body]
fn new_rodeo() -> (r: lasso::Rodeo)
    ensures
        interned(r) == Seq::<Seq<char>>::empty(),
{
    lasso::Rodeo::new()
}

/// Relies on `lasso::Rodeo::get_or_intern` and on `Spur::into_usize`: a string
/// already held keeps its key, whose index is its position; a new one is pushed
/// to the end, its key made from the old length. It panics only when that
/// length does not fit a `Spur` (the arena's default memory limit is
/// `usize::MAX`).
#[verifier::external_body]
fn rodeo_intern(r: &mut lasso::Rodeo, s: &str) -> (k: usize)
    requires
        interned(*old(r)).contains(s@) || interned(*old(r)).len() < u32::MAX,
    ensures
        interned(*old(r)).contains(s@) ==> interned(*final(r)) == interned(*old(r)),
        !interned(*old(r)).contains(s@) ==> interned(*final(r)) == interned(*old(r)).push(s@),
        k < interned(*final(r)).len(),
        interned(*final(r))[k as int] == s@,
{
    r.get_or_intern(s).into_usize()
}

/// Relies on `lasso::Rodeo::resolve` and on `Spur::try_from_usize`: the key made
/// from index `k` resolves to the `k`-th string interned.
#[verifier::external_body]
fn rodeo_resolve(r: &lasso::Rodeo, k: usize) -> (s: &str)
    requires
        k < interned(*r).len(),
        interned(*r).len() <= u32::MAX,
    ensures
        s@ == interned(*r)[k as int],
{
    r.resolve(&lasso::Spur::try_from_usize(k).unwrap())
}

/// Relies on `lasso::Rodeo::len`: the number of strings interned.
#[verifier::external_body]
fn rodeo_len(r: &lasso::Rodeo) -> (n: usize)
    ensures
        n == interned(*r).len(),
{
    r.len()
}

/// Relies on `typed_arena::Arena::new`.
#[verifier::external_body]
fn new_arena() -> typed_arena::Arena<Term> {
    typed_arena::Arena::new()
}

/// Relies on `typed_arena::Arena::alloc`: the value is moved into the arena and
/// a reference to it is handed back.
#[verifier::external_body]
fn arena_alloc(a: &typed_arena::Arena<Term>, t: Term) -> (r: &mut Term)
    ensures
        *r == t,
{
    a.alloc(t)
}

/// A handle for an interned piece of text: the position of the text in the
/// interner that issued it.
#[derive(Clone, Copy, PartialEq, Eq, Structural, PartialOrd, Ord, Hash, Debug)]
pub struct Symbol {
    pub index: usize,
}

/// The interner and the arena of one rewriting session.
pub struct Engine {
    arena: typed_arena::Arena<Term>,
    rodeo: lasso::Rodeo,
}

/// No string occurs twice.
pub open spec fn distinct(ss: Seq<Seq<char>>) -> bool {
    forall|i: int, j: int| 0 <= i < ss.len() && 0 <= j < ss.len() && i != j ==> ss[i] != ss[j]
}

impl Engine {
    /// The texts interned so far; a symbol's index is the position of its text.
    pub closed spec fn symbols(&self) -> Seq<Seq<char>> {
        interned(self.rodeo)
    }

    /// Equal texts share one symbol, and every index fits a key.
    pub open spec fn wf(&self) -> bool {
        &&& distinct(self.symbols())
        &&& self.symbols().len() <= u32::MAX
    }

    /// Whether a symbol was issued by this engine.
    pub open spec fn owns(&self, s: Symbol) -> bool {
        s.index < self.symbols().len()
    }

    pub fn new() -> (r: Self)
        ensures
            r.wf(),
            r.symbols() == Seq::<Seq<char>>::empty(),
    {
        Engine { arena: new_arena(), rodeo: new_rodeo() }
    }

    /// Moves a term into the session's arena.
    pub fn alloc_term(&self, term: Term) -> (r: &mut Term)
        ensures
            *r == term,
    {
        arena_alloc(&self.arena, term)
    }

    /// How many symbols have been issued.
    pub fn symbol_count(&self) -> (r: usize)
        ensures
            r == self.symbols().len(),
    {
        rodeo_len(&self.rodeo)
    }

    /// The symbol of a text: the one already issued for it, or a fresh one.
    pub fn get_or_intern(&mut self, s: String) -> (r: Symbol)
        requires
            old(self).wf(),
            old(self).symbols().contains(s@) || old(self).symbols().len() < u32::MAX,
        ensures
            final(self).wf(),
            old(self).symbols().contains(s@) ==> final(self).symbols() == old(self).symbols(),
            !old(self).symbols().contains(s@) ==> final(self).symbols() == old(self).symbols().push(
                s@,
            ),
            final(self).owns(r),
            final(self).symbols()[r.index as int] == s@,
    {
        let k = rodeo_intern(&mut self.rodeo, s.as_str());
        Symbol { index: k }
    }

    /// The text of a symbol issued by this engine.
    pub fn resolve(&self, s: &Symbol) -> (r: &str)
        requires
            self.wf(),
            self.owns(*s),
        ensures
            r@ == self.symbols()[s.index as int],
    {
        rodeo_resolve(&self.rodeo, s.index)
    }
}

/// The six built-in structural operators.
#[derive(Clone, Copy, PartialEq, Eq, Structural, PartialOrd, Ord, Hash, Debug)]
pub enum Primitive {
    Copy,
    Discard,
    Wrap,
    Unwrap,
    Swap,
    Combine,
}

/// The symbol that stands for an operator in text.
pub open spec fn prim_text(p: Primitive) -> Seq<char> {
    match p {
        Primitive::Copy => seq!['+'],
        Primitive::Discard => seq!['-'],
        Primitive::Swap => seq!['~'],
        Primitive::Combine => seq![','],
        Primitive::Wrap => seq!['>'],
        Primitive::Unwrap => seq!['<'],
    }
}

impl Primitive {
    /// The operator's symbol.
    pub fn text(&self) -> (r: &'static str)
        ensures
            r@ == prim_text(*self),
    {
        proof {
            reveal_strlit("+");
            reveal_strlit("-");
            reveal_strlit("~");
            reveal_strlit(",");
            reveal_strlit(">");
            reveal_strlit("<");
        }
        match self {
            Primitive::Copy => "+",
            Primitive::Discard => "-",
            Primitive::Swap => "~",
            Primitive::Combine => ",",
            Primitive::Wrap => ">",
            Primitive::Unwrap => "<",
        }
    }

    /// The operator's symbol as an owned string.
    pub fn to_string(&self) -> (r: String)
        ensures
            r@ == prim_text(*self),
    {
        String::from_str(self.text())
    }
}

/// A term: a word, a built-in operator, or a quote of a sequence of terms.
/// A quote's contents are shared, never changed in place.
#[derive(Clone, Debug)]
pub enum Term {
    Word(Symbol),
    Prim(Primitive),
    Quote(Rc<Vec<Term>>),
}

/// The value of a term, with quotes as mathematical sequences.
pub enum TermView {
    Word(Symbol),
    Prim(Primitive),
    Quote(Seq<TermView>),
}

/// The value of a term.
pub open spec fn term_view(t: Term) -> TermView
    decreases t,
{
    match t {
        Term::Word(s) => TermView::Word(s),
        Term::Prim(p) => TermView::Prim(p),
        Term::Quote(q) => TermView::Quote(
            Seq::new(
                q@.len(),
                |i: int|
                    if 0 <= i < q@.len() {
                        term_view(q@[i])
                    } else {
                        TermView::Word(Symbol { index: 0 })
                    },
            ),
        ),
    }
}

/// The values of a sequence of terms.
pub open spec fn views(s: Seq<Term>) -> Seq<TermView> {
    s.map_values(|t: Term| term_view(t))
}

impl View for Term {
    type V = TermView;

    open spec fn view(&self) -> TermView {
        term_view(*self)
    }
}

/// The value of a quote is the sequence of its contents' values.
pub proof fn lemma_quote_view(q: Rc<Vec<Term>>)
    ensures
        term_view(Term::Quote(q)) == TermView::Quote(views(q@)),
{
    let v = term_view(Term::Quote(q));
    assert(v->Quote_0 =~= views(q@));
}

/// Every word in the term is one of the first `n` symbols of an interner.
pub open spec fn known(n: nat, t: TermView) -> bool
    decreases t,
{
    match t {
        TermView::Word(s) => s.index < n,
        TermView::Prim(_) => true,
        TermView::Quote(q) => forall|i: int| 0 <= i < q.len() ==> known(n, #[trigger] q[i]),
    }
}

/// Every word in the terms is one of the first `n` symbols of an interner.
pub open spec fn all_known(n: nat, s: Seq<TermView>) -> bool {
    forall|i: int| 0 <= i < s.len() ==> known(n, #[trigger] s[i])
}

/// A term known to a smaller interner is known to a larger one.
pub proof fn lemma_known_grows(n: nat, m: nat, t: TermView)
    requires
        known(n, t),
        n <= m,
    ensures
        known(m, t),
    decreases t,
{
    if let TermView::Quote(q) = t {
        assert forall|i: int| 0 <= i < q.len() implies known(m, #[trigger] q[i]) by {
            lemma_known_grows(n, m, q[i]);
        }
    }
}

/// Terms known to a smaller interner are known to a larger one.
pub proof fn lemma_all_known_grows(n: nat, m: nat, s: Seq<TermView>)
    requires
        all_known(n, s),
        n <= m,
    ensures
        all_known(m, s),
{
    assert forall|i: int| 0 <= i < s.len() implies known(m, #[trigger] s[i]) by {
        lemma_known_grows(n, m, s[i]);
    }
}

/// Every word in the rules is one of the first `n` symbols of an interner.
pub open spec fn rules_known(n: nat, rs: Seq<RuleView>) -> bool {
    forall|i: int|
        0 <= i < rs.len() ==> all_known(n, #[trigger] rs[i].redex) && all_known(n, rs[i].reduction)
}

/// A term as written: words by their text.
pub enum Form {
    Word(Seq<char>),
    Prim(Primitive),
    Quote(Seq<Form>),
}

/// How a term is written, given the texts of the symbols.
pub open spec fn form_of(symbols: Seq<Seq<char>>, t: TermView) -> Form
    decreases t,
{
    match t {
        TermView::Word(s) => Form::Word(symbols[s.index as int]),
        TermView::Prim(p) => Form::Prim(p),
        TermView::Quote(q) => Form::Quote(
            Seq::new(
                q.len(),
                |i: int|
                    if 0 <= i < q.len() {
                        form_of(symbols, q[i])
                    } else {
                        Form::Prim(Primitive::Copy)
                    },
            ),
        ),
    }
}

/// How a sequence of terms is written.
pub open spec fn forms(symbols: Seq<Seq<char>>, s: Seq<TermView>) -> Seq<Form> {
    s.map_values(|t: TermView| form_of(symbols, t))
}

/// A quote is written as the forms of its contents.
pub proof fn lemma_form_quote(symbols: Seq<Seq<char>>, q: Seq<TermView>)
    ensures
        form_of(symbols, TermView::Quote(q)) == Form::Quote(forms(symbols, q)),
{
    let v = form_of(symbols, TermView::Quote(q));
    assert(v->Quote_0 =~= forms(symbols, q));
}

/// Interning more symbols does not change how a known term is written.
pub proof fn lemma_form_grows(a: Seq<Seq<char>>, b: Seq<Seq<char>>, t: TermView)
    requires
        known(a.len(), t),
        a.is_prefix_of(b),
    ensures
        form_of(a, t) == form_of(b, t),
    decreases t,
{
    if let TermView::Quote(q) = t {
        assert forall|i: int| 0 <= i < q.len() implies form_of(a, #[trigger] q[i]) == form_of(
            b,
            q[i],
        ) by {
            lemma_form_grows(a, b, q[i]);
        }
        lemma_form_quote(a, q);
        lemma_form_quote(b, q);
        assert(forms(a, q) =~= forms(b, q));
    }
}

/// Interning more symbols does not change how known terms are written.
pub proof fn lemma_forms_grow(a: Seq<Seq<char>>, b: Seq<Seq<char>>, s: Seq<TermView>)
    requires
        all_known(a.len(), s),
        a.is_prefix_of(b),
    ensures
        forms(a, s) == forms(b, s),
{
    assert forall|i: int| 0 <= i < s.len() implies forms(a, s)[i] == forms(b, s)[i] by {
        lemma_form_grows(a, b, s[i]);
    }
    assert(forms(a, s) =~= forms(b, s));
}

impl Term {
    /// Allocates a word term in the engine's arena.
    pub fn make_word(engine: &Engine, spur: Symbol) -> (r: &mut Self)
        ensures
            *r == Term::Word(spur),
    {
        engine.alloc_term(Term::Word(spur))
    }

    /// Allocates a quote of the given terms in the engine's arena.
    pub fn make_quote(engine: &Engine, terms: Vec<Term>) -> (r: &mut Self)
        ensures
            r@ == TermView::Quote(views(terms@)),
    {
        let q = Rc::new(terms);
        proof {
            lemma_quote_view(q);
        }
        engine.alloc_term(Term::Quote(q))
    }

    /// Allocates an operator term in the engine's arena.
    pub fn make_prim(engine: &Engine, primitive: Primitive) -> (r: &mut Self)
        ensures
            *r == Term::Prim(primitive),
    {
        engine.alloc_term(Term::Prim(primitive))
    }

    pub fn is_quote(&self) -> (r: bool)
        ensures
            r == self is Quote,
            r == self@ is Quote,
    {
        match self {
            Term::Quote(_) => true,
            _ => false,
        }
    }

    /// Whether the term is the word of a given symbol.
    pub fn is_word_equal_to(&self, s: Symbol) -> (r: bool)
        ensures
            r == (self@ == TermView::Word(s)),
    {
        match self {
            Term::Word(w) => *w == s,
            _ => false,
        }
    }

    /// Another handle on the same term; a quote's contents are shared, not copied.
    pub fn share(&self) -> (r: Term)
        ensures
            r == *self,
    {
        match self {
            Term::Word(s) => Term::Word(*s),
            Term::Prim(p) => Term::Prim(*p),
            Term::Quote(q) => Term::Quote(Rc::clone(q)),
        }
    }
}

/// Whether two terms have the same value.
pub fn term_eq(a: &Term, b: &Term) -> (r: bool)
    ensures
        r == (a@ == b@),
    decreases a,
{
    match (a, b) {
        (Term::Word(x), Term::Word(y)) => *x == *y,
        (Term::Prim(x), Term::Prim(y)) => *x == *y,
        (Term::Quote(x), Term::Quote(y)) => {
            proof {
                lemma_quote_view(*x);
                lemma_quote_view(*y);
            }
            terms_eq(x, y)
        },
        _ => false,
    }
}

/// Whether two sequences of terms have the same values.
pub fn terms_eq(a: &Vec<Term>, b: &Vec<Term>) -> (r: bool)
    ensures
        r == (views(a@) == views(b@)),
    decreases a,
{
    if a.len() != b.len() {
        assert(views(a@).len() != views(b@).len());
        return false;
    }
    let mut i: usize = 0;
    while i < a.len()
        invariant
            a.len() == b.len(),
            i <= a.len(),
            forall|k: int| 0 <= k < i ==> views(a@)[k] == views(b@)[k],
        decreases a.len() - i,
    {
        if !term_eq(&a[i], &b[i]) {
            assert(views(a@)[i as int] != views(b@)[i as int]);
            return false;
        }
        i = i + 1;
    }
    assert(views(a@) =~= views(b@));
    true
}

impl PartialEq for Term {
    fn eq(&self, other: &Term) -> (r: bool) {
        term_eq(self, other)
    }
}

impl vstd::std_specs::cmp::PartialEqSpecImpl for Term {
    open spec fn obeys_eq_spec() -> bool {
        true
    }

    open spec fn eq_spec(&self, other: &Term) -> bool {
        self@ == other@
    }
}

/// A rewrite rule: the redex is replaced by the reduction.
#[derive(Clone, Debug)]
pub struct Rule {
    pub redex: Vec<Term>,
    pub reduction: Vec<Term>,
}

/// The value of a rule.
pub struct RuleView {
    pub redex: Seq<TermView>,
    pub reduction: Seq<TermView>,
}

impl View for Rule {
    type V = RuleView;

    open spec fn view(&self) -> RuleView {
        RuleView { redex: views(self.redex@), reduction: views(self.reduction@) }
    }
}

/// A sequence of terms holds no quote.
pub open spec fn flat(s: Seq<TermView>) -> bool {
    forall|i: int| 0 <= i < s.len() ==> !(#[trigger] s[i] is Quote)
}

/// The values of a sequence of rules.
pub open spec fn rule_views(rs: Seq<Rule>) -> Seq<RuleView> {
    rs.map_values(|r: Rule| r@)
}

/// Every redex is made of words and operators only.
pub open spec fn flat_rules(rs: Seq<RuleView>) -> bool {
    forall|i: int| 0 <= i < rs.len() ==> flat(#[trigger] rs[i].redex)
}

impl Rule {
    /// A rule with an empty redex and an empty reduction.
    pub fn new() -> (r: Self)
        ensures
            r@.redex == Seq::<TermView>::empty(),
            r@.reduction == Seq::<TermView>::empty(),
    {
        let r = Rule { redex: Vec::new(), reduction: Vec::new() };
        assert(r@.redex =~= Seq::<TermView>::empty());
        assert(r@.reduction =~= Seq::<TermView>::empty());
        r
    }
}

} // verus!
