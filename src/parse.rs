//! Reading terms and rules from text.
use vstd::prelude::*;
use vstd::string::StringExecFns;
use crate::ast::{
    all_known, flat, flat_rules, form_of, forms, known, lemma_all_known_grows,
    lemma_form_quote, lemma_forms_grow, prim_text, rule_views, rules_known, views, Engine, Form,
    Primitive, Rule, RuleView, Symbol, Term,
};

verus! {

broadcast use vstd::string::group_string_axioms;

/// Whether a character is white space in Unicode's sense.
pub uninterp spec fn white_space(c: char) -> bool;

/// Relies on `char::is_whitespace`, which depends on the character alone.
#[verifier::external_body]
fn is_white(c: char) -> (r: bool)
    ensures
        r == white_space(c),
{
    c.is_whitespace()
}

/// Relies on `String::push`: the character is appended.
#[verifier::external_body]
fn push_char(s: &mut String, c: char)
    ensures
        final(s)@ == old(s)@.push(c),
{
    s.push(c)
}

/// A lexical token.
#[derive(Clone, Debug)]
pub enum Token {
    LeftParen,
    RightParen,
    Period,
    Equals,
    Prim(Primitive),
    Word(String),
    EndOfInput,
}

/// The value of a token.
pub enum TokenView {
    LeftParen,
    RightParen,
    Period,
    Equals,
    Prim(Primitive),
    Word(Seq<char>),
    EndOfInput,
}

impl View for Token {
    type V = TokenView;

    open spec fn view(&self) -> TokenView {
        match self {
            Token::LeftParen => TokenView::LeftParen,
            Token::RightParen => TokenView::RightParen,
            Token::Period => TokenView::Period,
            Token::Equals => TokenView::Equals,
            Token::Prim(p) => TokenView::Prim(*p),
            Token::Word(s) => TokenView::Word(s@),
            Token::EndOfInput => TokenView::EndOfInput,
        }
    }
}

impl Token {
    /// A copy of the token.
    pub fn copy(&self) -> (r: Token)
        ensures
            r@ == self@,
    {
        match self {
            Token::LeftParen => Token::LeftParen,
            Token::RightParen => Token::RightParen,
            Token::Period => Token::Period,
            Token::Equals => Token::Equals,
            Token::Prim(p) => Token::Prim(*p),
            Token::Word(s) => Token::Word(s.clone()),
            Token::EndOfInput => Token::EndOfInput,
        }
    }

    pub fn is_end(&self) -> (r: bool)
        ensures
            r == (self@ == TokenView::EndOfInput),
    {
        match self {
            Token::EndOfInput => true,
            _ => false,
        }
    }
}

/// The values of a sequence of tokens.
pub open spec fn token_views(ts: Seq<Token>) -> Seq<TokenView> {
    ts.map_values(|t: Token| t@)
}

/// The token that a character stands for on its own, if any.
pub open spec fn delimiter(c: char) -> Option<TokenView> {
    if c == '=' {
        Some(TokenView::Equals)
    } else if c == '.' {
        Some(TokenView::Period)
    } else if c == '~' {
        Some(TokenView::Prim(Primitive::Swap))
    } else if c == ',' {
        Some(TokenView::Prim(Primitive::Combine))
    } else if c == '+' {
        Some(TokenView::Prim(Primitive::Copy))
    } else if c == '-' {
        Some(TokenView::Prim(Primitive::Discard))
    } else if c == '>' {
        Some(TokenView::Prim(Primitive::Wrap))
    } else if c == '<' {
        Some(TokenView::Prim(Primitive::Unwrap))
    } else if c == '(' {
        Some(TokenView::LeftParen)
    } else if c == ')' {
        Some(TokenView::RightParen)
    } else {
        None
    }
}

/// A character that can be part of a word.
pub open spec fn word_char(c: char) -> bool {
    !white_space(c) && delimiter(c) is None
}

/// The first `b` characters are white space, and the next one is not.
pub open spec fn blank_run(cs: Seq<char>, b: int) -> bool {
    &&& 0 <= b <= cs.len()
    &&& forall|k: int| 0 <= k < b ==> white_space(#[trigger] cs[k])
    &&& (b == cs.len() || !white_space(cs[b]))
}

/// The characters from `start` up to `end` make a word that cannot be extended.
pub open spec fn word_run(cs: Seq<char>, start: int, end: int) -> bool {
    &&& 0 <= start <= end <= cs.len()
    &&& forall|k: int| start <= k < end ==> word_char(#[trigger] cs[k])
    &&& (end == cs.len() || !word_char(cs[end]))
}

/// The tokens read at once from the front of `cs`, and how many characters
/// they take: leading white space is skipped, a word is read up to the next
/// white space, delimiter or the end, and that white space or delimiter is
/// taken too; a delimiter gives its own token, the end gives `EndOfInput`.
pub open spec fn scan(cs: Seq<char>) -> (Seq<TokenView>, int) {
    let b = choose|b: int| blank_run(cs, b);
    let e = choose|e: int| word_run(cs, b, e);
    let word = if e == b {
        Seq::<TokenView>::empty()
    } else {
        seq![TokenView::Word(cs.subrange(b, e))]
    };
    if e == cs.len() {
        (word.push(TokenView::EndOfInput), cs.len() as int)
    } else if white_space(cs[e]) {
        (word, e + 1)
    } else {
        (word.push(delimiter(cs[e])->0), e + 1)
    }
}

/// The tokens of `cs`, read one batch at a time until no character is left,
/// then one `EndOfInput` for the read at the end.
pub open spec fn lex(cs: Seq<char>) -> Seq<TokenView>
    decreases cs.len(),
{
    if cs.len() == 0 {
        seq![TokenView::EndOfInput]
    } else {
        let (ts, n) = scan(cs);
        if 0 < n <= cs.len() {
            ts + lex(cs.subrange(n, cs.len() as int))
        } else {
            ts
        }
    }
}

/// The `k`-th token of a stream that goes on with `EndOfInput` for ever.
pub open spec fn at(ts: Seq<TokenView>, k: int) -> TokenView {
    if 0 <= k < ts.len() {
        ts[k]
    } else {
        TokenView::EndOfInput
    }
}

/// Two token sequences stand for the same stream.
pub open spec fn same_stream(a: Seq<TokenView>, b: Seq<TokenView>) -> bool {
    forall|k: int| #[trigger] at(a, k) == at(b, k)
}

proof fn lemma_blank_run_unique(cs: Seq<char>, b: int)
    requires
        blank_run(cs, b),
    ensures
        (choose|x: int| blank_run(cs, x)) == b,
{
    let x = choose|x: int| blank_run(cs, x);
    assert(blank_run(cs, x));
    if x < b {
        assert(white_space(cs[x]));
    } else if b < x {
        assert(white_space(cs[b]));
    }
}

proof fn lemma_word_run_unique(cs: Seq<char>, start: int, end: int)
    requires
        word_run(cs, start, end),
    ensures
        (choose|x: int| word_run(cs, start, x)) == end,
{
    let x = choose|x: int| word_run(cs, start, x);
    assert(word_run(cs, start, x));
    if x < end {
        assert(word_char(cs[x]));
    } else if end < x {
        assert(word_char(cs[end]));
    }
}

/// The token for a delimiter character.
fn delimiter_token(c: char) -> (r: Option<Token>)
    ensures
        match r {
            Some(t) => delimiter(c) == Some(t@),
            None => delimiter(c) is None,
        },
{
    if c == '=' {
        Some(Token::Equals)
    } else if c == '.' {
        Some(Token::Period)
    } else if c == '~' {
        Some(Token::Prim(Primitive::Swap))
    } else if c == ',' {
        Some(Token::Prim(Primitive::Combine))
    } else if c == '+' {
        Some(Token::Prim(Primitive::Copy))
    } else if c == '-' {
        Some(Token::Prim(Primitive::Discard))
    } else if c == '>' {
        Some(Token::Prim(Primitive::Wrap))
    } else if c == '<' {
        Some(Token::Prim(Primitive::Unwrap))
    } else if c == '(' {
        Some(Token::LeftParen)
    } else if c == ')' {
        Some(Token::RightParen)
    } else {
        None
    }
}

/// A stream of tokens read from a text.
pub struct Tokens {
    chars: Vec<char>,
    pos: usize,
    peeked: Vec<Token>,
}

impl Tokens {
    /// The characters not read yet.
    pub closed spec fn rest(&self) -> Seq<char> {
        self.chars@.subrange(self.pos as int, self.chars@.len() as int)
    }

    /// Tokens read but not handed out yet.
    pub closed spec fn pending(&self) -> Seq<TokenView> {
        token_views(self.peeked@)
    }

    /// The tokens to come: those read ahead, then those of the rest of the text.
    pub open spec fn upcoming(&self) -> Seq<TokenView> {
        self.pending() + lex(self.rest())
    }

    /// Only the last token read ahead can be the end of the input.
    pub closed spec fn wf(&self) -> bool {
        &&& self.pos <= self.chars@.len()
        &&& forall|i: int|
            0 <= i < self.peeked@.len() - 1 ==> #[trigger] self.peeked@[i]@
                != TokenView::EndOfInput
    }

    /// A bound on the number of tokens to come before the end of the input.
    pub closed spec fn size(&self) -> nat {
        let p = self.pending();
        let ends = if p.len() > 0 && p.last() == TokenView::EndOfInput {
            1int
        } else {
            0int
        };
        (self.rest().len() + p.len() - ends) as nat
    }

    /// A stream over the characters of `s`.
    pub fn new(s: &str) -> (r: Self)
        ensures
            r.wf(),
            r.rest() == s@,
            r.pending() == Seq::<TokenView>::empty(),
    {
        let mut chars: Vec<char> = Vec::new();
        for c in it: s.chars()
            invariant
                chars@ == it.seq().subrange(0, it.index() as int),
        {
            chars.push(c);
        }
        let r = Tokens { chars, pos: 0, peeked: Vec::new() };
        assert(r.rest() =~= s@);
        assert(r.pending() =~= Seq::<TokenView>::empty());
        r
    }

    /// Reads the next batch of tokens from the text.
    pub fn iter_next(&mut self) -> (r: Vec<Token>)
        requires
            old(self).wf(),
        ensures
            final(self).wf(),
            token_views(r@) == scan(old(self).rest()).0,
            r@.len() > 0,
            forall|i: int|
                0 <= i < r@.len() - 1 ==> #[trigger] r@[i]@ != TokenView::EndOfInput,
            r@[r@.len() - 1]@ == TokenView::EndOfInput ==> final(self).rest().len() == 0,
            r@.len() - (if r@[r@.len() - 1]@ == TokenView::EndOfInput {
                1int
            } else {
                0int
            }) <= old(self).rest().len() - final(self).rest().len(),
            0 < scan(old(self).rest()).1 <= old(self).rest().len() || old(self).rest().len() == 0,
            final(self).rest() == old(self).rest().subrange(
                scan(old(self).rest()).1,
                old(self).rest().len() as int,
            ),
            final(self).pending() == old(self).pending(),
    {
        let ghost cs = self.rest();
        let ghost start = self.pos as int;
        let ghost mut b: int = 0;
        let mut buf = String::new();
        let mut have_word = false;
        loop
            invariant
                self.wf(),
                self.pending() == old(self).pending(),
                self.chars@ == old(self).chars@,
                start == old(self).pos,
                start <= self.pos <= self.chars@.len(),
                cs == self.chars@.subrange(start, self.chars@.len() as int),
                have_word == (buf@.len() > 0),
                !have_word ==> forall|k: int| 0 <= k < self.pos - start ==> white_space(
                    #[trigger] cs[k],
                ),
                have_word ==> {
                    &&& blank_run(cs, b)
                    &&& self.pos - start == b + buf@.len()
                    &&& buf@ == cs.subrange(b, self.pos - start)
                    &&& forall|k: int| b <= k < self.pos - start ==> word_char(#[trigger] cs[k])
                },
            decreases self.chars@.len() - self.pos,
        {
            if self.pos < self.chars.len() {
                let c = self.chars[self.pos];
                let ghost at_c = self.pos - start;
                assert(cs[at_c] == c);
                self.pos = self.pos + 1;
                if is_white(c) {
                    if have_word {
                        proof {
                            lemma_blank_run_unique(cs, b);
                            lemma_word_run_unique(cs, b, at_c);
                        }
                        let mut r: Vec<Token> = Vec::new();
                        r.push(Token::Word(buf));
                        assert(token_views(r@) =~= scan(cs).0);
                        assert(self.rest() =~= cs.subrange(at_c + 1, cs.len() as int));
                        return r;
                    }
                    continue ;
                }
                match delimiter_token(c) {
                    Some(t) => {
                        if !have_word {
                            proof {
                                b = at_c;
                            }
                        }
                        proof {
                            lemma_blank_run_unique(cs, b);
                            lemma_word_run_unique(cs, b, at_c);
                        }
                        let mut r: Vec<Token> = Vec::new();
                        if have_word {
                            r.push(Token::Word(buf));
                        }
                        r.push(t);
                        assert(token_views(r@) =~= scan(cs).0);
                        assert(self.rest() =~= cs.subrange(at_c + 1, cs.len() as int));
                        return r;
                    },
                    None => {
                        if !have_word {
                            proof {
                                b = at_c;
                            }
                        }
                        push_char(&mut buf, c);
                        have_word = true;
                        assert(buf@ =~= cs.subrange(b, self.pos - start));
                    },
                }
            } else {
                let ghost n = cs.len() as int;
                if !have_word {
                    proof {
                        b = n;
                    }
                }
                proof {
                    lemma_blank_run_unique(cs, b);
                    lemma_word_run_unique(cs, b, n);
                }
                let mut r: Vec<Token> = Vec::new();
                if have_word {
                    r.push(Token::Word(buf));
                }
                r.push(Token::EndOfInput);
                assert(token_views(r@) =~= scan(cs).0);
                assert(self.rest() =~= cs.subrange(n, n));
                return r;
            }
        }
    }

    /// Makes sure that at least one token has been read ahead.
    fn fill(&mut self)
        requires
            old(self).wf(),
        ensures
            final(self).wf(),
            final(self).pending().len() > 0,
            same_stream(final(self).upcoming(), old(self).upcoming()),
            final(self).size() <= old(self).size(),
    {
        if self.peeked.len() == 0 {
            let ghost cs = self.rest();
            let mut next_tokens = self.iter_next();
            let ghost toks = next_tokens@;
            assert(self.pending().len() == 0);
            assert(self.peeked@.len() == 0);
            self.peeked.append(&mut next_tokens);
            assert(self.peeked@ =~= toks);
            assert(self.pending() =~= scan(cs).0);
            proof {
            if cs.len() == 0nat {
                lemma_blank_run_unique(cs, 0);
                lemma_word_run_unique(cs, 0, 0);
                assert(self.rest() =~= cs);
                assert(self.upcoming() =~= seq![TokenView::EndOfInput, TokenView::EndOfInput]);
            } else {
                assert(old(self).pending() =~= Seq::<TokenView>::empty());
                assert(old(self).upcoming() =~= lex(cs));
            }
            }
        }
    }

    /// The next token, which stays in the stream.
    pub fn peek(&mut self) -> (r: Token)
        requires
            old(self).wf(),
        ensures
            final(self).wf(),
            r@ == at(old(self).upcoming(), 0),
            same_stream(final(self).upcoming(), old(self).upcoming()),
            final(self).size() <= old(self).size(),
    {
        self.fill();
        assert(at(self.upcoming(), 0) == self.pending()[0]);
        self.peeked[0].copy()
    }

    /// Whether the next token is the end of the input.
    pub fn at_eoi(&mut self) -> (r: bool)
        requires
            old(self).wf(),
        ensures
            final(self).wf(),
            r == (at(old(self).upcoming(), 0) == TokenView::EndOfInput),
            same_stream(final(self).upcoming(), old(self).upcoming()),
            final(self).size() <= old(self).size(),
    {
        self.fill();
        assert(at(self.upcoming(), 0) == self.pending()[0]);
        self.peeked[0].is_end()
    }

    /// Drops the next token.
    pub fn advance(&mut self)
        requires
            old(self).wf(),
        ensures
            final(self).wf(),
            final(self).size() <= old(self).size(),
            at(old(self).upcoming(), 0) != TokenView::EndOfInput ==> final(self).size() < old(
                self,
            ).size(),
            forall|k: int|
                0 <= k ==> #[trigger] at(final(self).upcoming(), k) == at(
                    old(self).upcoming(),
                    k + 1,
                ),
    {
        self.fill();
        let ghost mid = self.upcoming();
        let ghost p = self.pending();
        assert(at(mid, 0) == p[0]);
        let _ = self.peeked.remove(0);
        assert(self.pending() =~= p.subrange(1, p.len() as int));
        assert(p.len() >= 2 ==> self.pending().last() == p.last());
        assert forall|k: int| 0 <= k implies #[trigger] at(self.upcoming(), k) == at(mid, k + 1) by {
            assert(self.upcoming() =~= mid.subrange(1, mid.len() as int));
        }
    }

    /// Hands out the next token.
    pub fn next(&mut self) -> (r: Option<Token>)
        requires
            old(self).wf(),
        ensures
            final(self).wf(),
            r is Some,
            r->0@ == at(old(self).upcoming(), 0),
            final(self).size() <= old(self).size(),
            at(old(self).upcoming(), 0) != TokenView::EndOfInput ==> final(self).size() < old(
                self,
            ).size(),
            forall|k: int|
                0 <= k ==> #[trigger] at(final(self).upcoming(), k) == at(
                    old(self).upcoming(),
                    k + 1,
                ),
    {
        self.fill();
        let ghost mid = self.upcoming();
        assert(at(mid, 0) == self.pending()[0]);
        let t = self.peeked.remove(0);
        assert forall|k: int| 0 <= k implies #[trigger] at(self.upcoming(), k) == at(mid, k + 1) by {
            assert(self.upcoming() =~= mid.subrange(1, mid.len() as int));
        }
        Some(t)
    }
}

/// How a token is named in an error message.
pub open spec fn display(t: TokenView) -> Seq<char> {
    match t {
        TokenView::LeftParen => seq!['('],
        TokenView::RightParen => seq![')'],
        TokenView::Prim(p) => prim_text(p),
        TokenView::Period => seq!['.'],
        TokenView::Equals => seq!['='],
        TokenView::Word(s) => seq!['w', 'o', 'r', 'd', ' ', '"'] + s + seq!['"'],
        TokenView::EndOfInput => seq!['e', 'n', 'd', ' ', 'o', 'f', ' ', 'i', 'n', 'p', 'u', 't'],
    }
}

/// Names a token for an error message.
pub fn display_token(token: &Token) -> (r: String)
    ensures
        r@ == display(token@),
{
    proof {
        reveal_strlit("(");
        reveal_strlit(")");
        reveal_strlit(".");
        reveal_strlit("=");
        reveal_strlit("word \"");
        reveal_strlit("\"");
        reveal_strlit("end of input");
    }
    match token {
        Token::LeftParen => String::from_str("("),
        Token::RightParen => String::from_str(")"),
        Token::Prim(p) => p.to_string(),
        Token::Period => String::from_str("."),
        Token::Equals => String::from_str("="),
        Token::Word(s) => {
            let mut r = String::from_str("word \"");
            r.append(s.as_str());
            r.append("\"");
            assert(r@ =~= display(token@));
            r
        },
        Token::EndOfInput => {
            let r = String::from_str("end of input");
            assert(r@ =~= display(token@));
            r
        },
    }
}

/// What a parse of a stream of tokens gives: what was read and the position
/// after it, or an error message and whether a token was taken before it.
pub type Parsed<T> = Result<(T, int), (bool, Seq<char>)>;

/// A term read from position `k`: a word, an operator, or a quote of terms
/// in parentheses.
pub open spec fn term_at(ts: Seq<TokenView>, k: int) -> Parsed<Form>
    decreases ts.len() - k, 0int,
{
    match at(ts, k) {
        TokenView::Word(w) => Ok((Form::Word(w), k + 1)),
        TokenView::Prim(p) => Ok((Form::Prim(p), k + 1)),
        TokenView::LeftParen => match terms_at(ts, k + 1) {
            Ok((fs, j)) => if at(ts, j) == TokenView::RightParen {
                Ok((Form::Quote(fs), j + 1))
            } else {
                Err((true, "Expected ')' but found "@ + display(at(ts, j))))
            },
            Err(m) => Err((true, m)),
        },
        t => Err((false, "Expected term but found "@ + display(t))),
    }
}

/// Terms read from position `k` for as long as one starts there.
pub open spec fn terms_at(ts: Seq<TokenView>, k: int) -> Result<(Seq<Form>, int), Seq<char>>
    decreases ts.len() - k, 1int,
{
    match term_at(ts, k) {
        Ok((f, j)) => if k < j <= ts.len() {
            match terms_at(ts, j) {
                Ok((fs, n)) => Ok((seq![f] + fs, n)),
                Err(m) => Err(m),
            }
        } else {
            Ok((seq![f], j))
        },
        Err((true, m)) => Err(m),
        Err((false, _)) => Ok((Seq::empty(), k)),
    }
}

/// A word or an operator read from position `k`.
pub open spec fn nonquote_term_at(ts: Seq<TokenView>, k: int) -> Parsed<Form> {
    match at(ts, k) {
        TokenView::Word(w) => Ok((Form::Word(w), k + 1)),
        TokenView::Prim(p) => Ok((Form::Prim(p), k + 1)),
        t => Err((false, "Expected non-quote term but found "@ + display(t))),
    }
}

/// Words and operators read from position `k` for as long as there are any.
pub open spec fn nonquote_terms_at(ts: Seq<TokenView>, k: int) -> (Seq<Form>, int)
    decreases ts.len() - k,
{
    match nonquote_term_at(ts, k) {
        Ok((f, j)) => if k < ts.len() {
            let (fs, n) = nonquote_terms_at(ts, j);
            (seq![f] + fs, n)
        } else {
            (seq![f], j)
        },
        Err(_) => (Seq::empty(), k),
    }
}

/// A rule read from position `k`: a redex of words and operators, `=`, a
/// reduction of terms and a period.
pub open spec fn rule_at(ts: Seq<TokenView>, k: int) -> Parsed<(Seq<Form>, Seq<Form>)> {
    let (redex, j) = nonquote_terms_at(ts, k);
    match at(ts, j) {
        TokenView::Equals => match terms_at(ts, j + 1) {
            Ok((reduction, n)) => if at(ts, n) == TokenView::Period {
                Ok(((redex, reduction), n + 1))
            } else {
                Err((true, "Expected ';' but found "@ + display(at(ts, n))))
            },
            Err(m) => Err((true, m)),
        },
        t => Err((redex.len() > 0, "Expected '=' but found "@ + display(t))),
    }
}

/// Rules read from position `k` for as long as one starts there.
pub open spec fn rules_at(ts: Seq<TokenView>, k: int) -> Result<
    (Seq<(Seq<Form>, Seq<Form>)>, int),
    Seq<char>,
>
    decreases ts.len() - k,
{
    match rule_at(ts, k) {
        Ok((r, j)) => if k < j <= ts.len() {
            match rules_at(ts, j) {
                Ok((rs, n)) => Ok((seq![r] + rs, n)),
                Err(m) => Err(m),
            }
        } else {
            Ok((seq![r], j))
        },
        Err((true, m)) => Err(m),
        Err((false, _)) => Ok((Seq::empty(), k)),
    }
}

/// The result of a whole text: what was read, if the end of the input follows.
pub open spec fn whole<T>(ts: Seq<TokenView>, r: Result<(T, int), Seq<char>>) -> Result<
    T,
    Seq<char>,
> {
    match r {
        Ok((x, j)) => if at(ts, j) == TokenView::EndOfInput {
            Ok(x)
        } else {
            Err("Expected end of input but found "@ + display(at(ts, j)))
        },
        Err(m) => Err(m),
    }
}

/// An error whether or not a token was taken.
pub open spec fn either<T>(r: Parsed<T>) -> Result<(T, int), Seq<char>> {
    match r {
        Ok(x) => Ok(x),
        Err((_, m)) => Err(m),
    }
}

/// From position `k` on, `upcoming` is the stream `ts`.
pub open spec fn stream_from(upcoming: Seq<TokenView>, ts: Seq<TokenView>, k: int) -> bool {
    &&& 0 <= k
    &&& forall|i: int| 0 <= i ==> #[trigger] at(upcoming, i) == at(ts, k + i)
}

/// The interner has no key left for a new text.
pub open spec fn full(e: Engine) -> bool {
    e.symbols().len() >= u32::MAX
}

proof fn lemma_term_at_advances(ts: Seq<TokenView>, k: int)
    requires
        0 <= k,
    ensures
        term_at(ts, k) is Ok ==> k < term_at(ts, k)->Ok_0.1 <= ts.len(),
    decreases ts.len() - k, 0int,
{
    if at(ts, k) == TokenView::LeftParen {
        lemma_terms_at_advances(ts, k + 1);
    }
}

proof fn lemma_terms_at_advances(ts: Seq<TokenView>, k: int)
    requires
        0 <= k,
    ensures
        terms_at(ts, k) is Ok ==> k <= terms_at(ts, k)->Ok_0.1 && (terms_at(ts, k)->Ok_0.1 == k
            || terms_at(ts, k)->Ok_0.1 <= ts.len()),
    decreases ts.len() - k, 1int,
{
    lemma_term_at_advances(ts, k);
    if let Ok((f, j)) = term_at(ts, k) {
        if k < j <= ts.len() {
            lemma_terms_at_advances(ts, j);
        }
    }
}

proof fn lemma_nonquote_terms_at_advances(ts: Seq<TokenView>, k: int)
    requires
        0 <= k,
    ensures
        k <= nonquote_terms_at(ts, k).1,
        nonquote_terms_at(ts, k).1 == k || nonquote_terms_at(ts, k).1 <= ts.len(),
    decreases ts.len() - k,
{
    if let Ok((f, j)) = nonquote_term_at(ts, k) {
        if k < ts.len() {
            lemma_nonquote_terms_at_advances(ts, j);
        }
    }
}

proof fn lemma_rule_at_advances(ts: Seq<TokenView>, k: int)
    requires
        0 <= k,
    ensures
        rule_at(ts, k) is Ok ==> k < rule_at(ts, k)->Ok_0.1 <= ts.len(),
{
    lemma_nonquote_terms_at_advances(ts, k);
    let j = nonquote_terms_at(ts, k).1;
    if at(ts, j) == TokenView::Equals {
        lemma_terms_at_advances(ts, j + 1);
    }
}

/// `xs` in front of what a parse of terms gave.
pub open spec fn prepend<T>(xs: Seq<T>, r: Result<(Seq<T>, int), Seq<char>>) -> Result<
    (Seq<T>, int),
    Seq<char>,
> {
    match r {
        Ok((ys, n)) => Ok((xs + ys, n)),
        Err(m) => Err(m),
    }
}

/// A failed parse, and whether it took any token before failing.
enum ParseError {
    Consumed(String),
    DidNotConsume(String),
}

/// Whether a token was taken, and the message.
spec fn err_of(e: ParseError) -> (bool, Seq<char>) {
    match e {
        ParseError::Consumed(s) => (true, s@),
        ParseError::DidNotConsume(s) => (false, s@),
    }
}

/// `b` is `a` after more symbols may have been interned.
pub open spec fn grows(a: Engine, b: Engine) -> bool {
    &&& b.wf()
    &&& a.symbols().is_prefix_of(b.symbols())
}

/// The message `prefix` followed by the name of a token.
fn expected(prefix: &str, token: &Token) -> (r: String)
    ensures
        r@ == prefix@ + display(token@),
{
    let mut r = String::from_str(prefix);
    let shown = display_token(token);
    r.append(shown.as_str());
    r
}

/// The symbol of a word, unless the interner has no key left.
fn intern_word(engine: &mut Engine, s: String) -> (r: Result<Symbol, ParseError>)
    requires
        old(engine).wf(),
    ensures
        grows(*old(engine), *final(engine)),
        r is Ok ==> final(engine).owns(r->Ok_0) && final(engine).symbols()[r->Ok_0.index as int]
            == s@,
        r is Err ==> full(*final(engine)) && r->Err_0 is Consumed,
{
    if engine.symbol_count() >= u32::MAX as usize {
        return Err(ParseError::Consumed(String::from_str("Too many distinct words")));
    }
    Ok(engine.get_or_intern(s))
}

fn parse_term(
    engine: &mut Engine,
    tokens: &mut Tokens,
    Ghost(ts): Ghost<Seq<TokenView>>,
    Ghost(k): Ghost<int>,
) -> (r: Result<Term, ParseError>)
    requires
        old(engine).wf(),
        old(tokens).wf(),
        stream_from(old(tokens).upcoming(), ts, k),
    ensures
        grows(*old(engine), *final(engine)),
        final(tokens).wf(),
        final(tokens).size() <= old(tokens).size(),
        r is Ok ==> final(tokens).size() < old(tokens).size() && known(
            final(engine).symbols().len(),
            r->Ok_0@,
        ),
        match r {
            Ok(t) => term_at(ts, k) is Ok && form_of(final(engine).symbols(), t@) == term_at(
                ts,
                k,
            )->Ok_0.0 && stream_from(final(tokens).upcoming(), ts, term_at(ts, k)->Ok_0.1),
            Err(e) => (term_at(ts, k) == Err::<(Form, int), (bool, Seq<char>)>(err_of(e)) && (
            !err_of(e).0 ==> stream_from(final(tokens).upcoming(), ts, k))) || (err_of(e).0 && full(
                *final(engine),
            )),
        },
    decreases old(tokens).size(), 0nat,
{
    let token = tokens.peek();
    assert(at(tokens.upcoming(), 0) == at(ts, k));
    match token {
        Token::Word(s) => {
            tokens.advance();
            let sym = match intern_word(engine, s) {
                Ok(sym) => sym,
                Err(e) => return Err(e),
            };
            Ok(Term::make_word(engine, sym).share())
        },
        Token::Prim(p) => {
            tokens.advance();
            Ok(Term::make_prim(engine, p).share())
        },
        Token::LeftParen => {
            tokens.advance();
            let terms = match parse_terms(engine, tokens, Ghost(ts), Ghost(k + 1)) {
                Ok(terms) => terms,
                Err(e) => return Err(ParseError::Consumed(e)),
            };
            match tokens.next() {
                Some(Token::RightParen) => {
                    let t = Term::make_quote(engine, terms).share();
                    proof {
                        lemma_form_quote(engine.symbols(), views(terms@));
                    }
                    Ok(t)
                },
                Some(token) => Err(ParseError::Consumed(expected("Expected ')' but found ", &token))),
                None => Err(ParseError::Consumed(String::from_str("Expected ')'"))),
            }
        },
        _ => Err(ParseError::DidNotConsume(expected("Expected term but found ", &token))),
    }
}

fn parse_nonquote_term(
    engine: &mut Engine,
    tokens: &mut Tokens,
    Ghost(ts): Ghost<Seq<TokenView>>,
    Ghost(k): Ghost<int>,
) -> (r: Result<Term, ParseError>)
    requires
        old(engine).wf(),
        old(tokens).wf(),
        stream_from(old(tokens).upcoming(), ts, k),
    ensures
        grows(*old(engine), *final(engine)),
        final(tokens).wf(),
        final(tokens).size() <= old(tokens).size(),
        r is Ok ==> final(tokens).size() < old(tokens).size() && known(
            final(engine).symbols().len(),
            r->Ok_0@,
        ) && !(r->Ok_0@ is Quote),
        match r {
            Ok(t) => nonquote_term_at(ts, k) is Ok && form_of(final(engine).symbols(), t@)
                == nonquote_term_at(ts, k)->Ok_0.0 && stream_from(
                final(tokens).upcoming(),
                ts,
                nonquote_term_at(ts, k)->Ok_0.1,
            ),
            Err(e) => (nonquote_term_at(ts, k) == Err::<(Form, int), (bool, Seq<char>)>(
                err_of(e),
            ) && stream_from(final(tokens).upcoming(), ts, k)) || (err_of(e).0 && full(
                *final(engine),
            )),
        },
{
    let token = tokens.peek();
    assert(at(tokens.upcoming(), 0) == at(ts, k));
    match token {
        Token::Word(s) => {
            tokens.advance();
            let sym = match intern_word(engine, s) {
                Ok(sym) => sym,
                Err(e) => return Err(e),
            };
            Ok(Term::make_word(engine, sym).share())
        },
        Token::Prim(p) => {
            tokens.advance();
            Ok(Term::make_prim(engine, p).share())
        },
        _ => Err(
            ParseError::DidNotConsume(expected("Expected non-quote term but found ", &token)),
        ),
    }
}

fn parse_terms(
    engine: &mut Engine,
    tokens: &mut Tokens,
    Ghost(ts): Ghost<Seq<TokenView>>,
    Ghost(k): Ghost<int>,
) -> (r: Result<Vec<Term>, String>)
    requires
        old(engine).wf(),
        old(tokens).wf(),
        stream_from(old(tokens).upcoming(), ts, k),
    ensures
        grows(*old(engine), *final(engine)),
        final(tokens).wf(),
        final(tokens).size() <= old(tokens).size(),
        r is Ok ==> all_known(final(engine).symbols().len(), views(r->Ok_0@)),
        match r {
            Ok(v) => terms_at(ts, k) is Ok && forms(final(engine).symbols(), views(v@)) == terms_at(
                ts,
                k,
            )->Ok_0.0 && stream_from(final(tokens).upcoming(), ts, terms_at(ts, k)->Ok_0.1),
            Err(m) => terms_at(ts, k) == Err::<(Seq<Form>, int), Seq<char>>(m@) || full(
                *final(engine),
            ),
        },
    decreases old(tokens).size(), 1nat,
{
    let mut terms: Vec<Term> = Vec::new();
    let ghost mut kc: int = k;
    loop
        invariant
            grows(*old(engine), *engine),
            tokens.wf(),
            tokens.size() <= old(tokens).size(),
            all_known(engine.symbols().len(), views(terms@)),
            0 <= k <= kc,
            stream_from(tokens.upcoming(), ts, kc),
            terms_at(ts, k) == prepend(forms(engine.symbols(), views(terms@)), terms_at(ts, kc)),
        decreases tokens.size(),
    {
        let ghost before = engine.symbols();
        let ghost prev = terms@;
        proof {
            lemma_term_at_advances(ts, kc);
        }
        match parse_term(engine, tokens, Ghost(ts), Ghost(kc)) {
            Ok(term) => {
                proof {
                    lemma_all_known_grows(before.len(), engine.symbols().len(), views(terms@));
                }
                terms.push(term);
                assert(views(terms@) =~= views(prev).push(term@));
                assert(views(terms@)[prev.len() as int] == term@);
                proof {
                    {
                        let (f, j) = term_at(ts, kc)->Ok_0;
                        lemma_forms_grow(before, engine.symbols(), views(prev));
                        let done = forms(engine.symbols(), views(prev));
                        assert(forms(engine.symbols(), views(terms@)) =~= done.push(f));
                        match terms_at(ts, j) {
                            Ok((fs, n)) => {
                                assert(done + (seq![f] + fs) =~= done.push(f) + fs);
                            },
                            Err(m) => {},
                        }
                        kc = j;
                    }
                }
            },
            Err(ParseError::Consumed(err)) => {
                return Err(err);
            },
            Err(ParseError::DidNotConsume(_)) => {
                proof {
                    lemma_all_known_grows(before.len(), engine.symbols().len(), views(terms@));
                    {
                        lemma_forms_grow(before, engine.symbols(), views(prev));
                        let done = forms(engine.symbols(), views(prev));
                        assert(done + Seq::<Form>::empty() =~= done);
                        assert(term_at(ts, kc) is Err && !term_at(ts, kc)->Err_0.0);
                        assert(terms_at(ts, kc) == Ok::<(Seq<Form>, int), Seq<char>>(
                            (Seq::empty(), kc),
                        ));
                        assert(terms_at(ts, k) == Ok::<(Seq<Form>, int), Seq<char>>((done, kc)));
                    }
                }
                return Ok(terms);
            },
        }
    }
}

fn parse_nonquote_terms(
    engine: &mut Engine,
    tokens: &mut Tokens,
    Ghost(ts): Ghost<Seq<TokenView>>,
    Ghost(k): Ghost<int>,
) -> (r: Result<Vec<Term>, String>)
    requires
        old(engine).wf(),
        old(tokens).wf(),
        stream_from(old(tokens).upcoming(), ts, k),
    ensures
        grows(*old(engine), *final(engine)),
        final(tokens).wf(),
        final(tokens).size() <= old(tokens).size(),
        r is Ok ==> all_known(final(engine).symbols().len(), views(r->Ok_0@)) && flat(
            views(r->Ok_0@),
        ),
        r is Ok && r->Ok_0@.len() > 0 ==> final(tokens).size() < old(tokens).size(),
        match r {
            Ok(v) => forms(final(engine).symbols(), views(v@)) == nonquote_terms_at(ts, k).0
                && stream_from(final(tokens).upcoming(), ts, nonquote_terms_at(ts, k).1),
            Err(_) => full(*final(engine)),
        },
{
    let mut terms: Vec<Term> = Vec::new();
    let ghost mut kc: int = k;
    loop
        invariant
            grows(*old(engine), *engine),
            tokens.wf(),
            tokens.size() <= old(tokens).size(),
            terms@.len() > 0 ==> tokens.size() < old(tokens).size(),
            all_known(engine.symbols().len(), views(terms@)),
            flat(views(terms@)),
            0 <= k <= kc,
            stream_from(tokens.upcoming(), ts, kc),
            nonquote_terms_at(ts, k).0 == forms(engine.symbols(), views(terms@))
                + nonquote_terms_at(ts, kc).0,
            nonquote_terms_at(ts, k).1 == nonquote_terms_at(ts, kc).1,
        decreases tokens.size(),
    {
        let ghost before = engine.symbols();
        let ghost prev = terms@;
        match parse_nonquote_term(engine, tokens, Ghost(ts), Ghost(kc)) {
            Ok(term) => {
                proof {
                    lemma_all_known_grows(before.len(), engine.symbols().len(), views(terms@));
                }
                terms.push(term);
                assert(views(terms@) =~= views(prev).push(term@));
                assert(views(terms@)[prev.len() as int] == term@);
                proof {
                    let (f, j) = nonquote_term_at(ts, kc)->Ok_0;
                    lemma_forms_grow(before, engine.symbols(), views(prev));
                    let done = forms(engine.symbols(), views(prev));
                    assert(forms(engine.symbols(), views(terms@)) =~= done.push(f));
                    assert(done + (seq![f] + nonquote_terms_at(ts, j).0) =~= done.push(f)
                        + nonquote_terms_at(ts, j).0);
                    kc = j;
                }
            },
            Err(ParseError::Consumed(err)) => {
                return Err(err);
            },
            Err(ParseError::DidNotConsume(_)) => {
                proof {
                    lemma_all_known_grows(before.len(), engine.symbols().len(), views(terms@));
                    lemma_forms_grow(before, engine.symbols(), views(prev));
                    let done = forms(engine.symbols(), views(prev));
                    assert(done + Seq::<Form>::empty() =~= done);
                }
                return Ok(terms);
            },
        }
    }
}

/// How a sequence of rules is written.
pub open spec fn rule_forms(symbols: Seq<Seq<char>>, rs: Seq<RuleView>) -> Seq<
    (Seq<Form>, Seq<Form>),
> {
    rs.map_values(|r: RuleView| (forms(symbols, r.redex), forms(symbols, r.reduction)))
}

fn parse_rule(
    engine: &mut Engine,
    tokens: &mut Tokens,
    Ghost(ts): Ghost<Seq<TokenView>>,
    Ghost(k): Ghost<int>,
) -> (r: Result<Rule, ParseError>)
    requires
        old(engine).wf(),
        old(tokens).wf(),
        stream_from(old(tokens).upcoming(), ts, k),
    ensures
        grows(*old(engine), *final(engine)),
        final(tokens).wf(),
        final(tokens).size() <= old(tokens).size(),
        r is Ok ==> final(tokens).size() < old(tokens).size(),
        r is Ok ==> flat(r->Ok_0@.redex),
        r is Ok ==> all_known(final(engine).symbols().len(), r->Ok_0@.redex) && all_known(
            final(engine).symbols().len(),
            r->Ok_0@.reduction,
        ),
        match r {
            Ok(rule) => rule_at(ts, k) is Ok && (
                forms(final(engine).symbols(), rule@.redex),
                forms(final(engine).symbols(), rule@.reduction),
            ) == rule_at(ts, k)->Ok_0.0 && stream_from(
                final(tokens).upcoming(),
                ts,
                rule_at(ts, k)->Ok_0.1,
            ),
            Err(e) => (rule_at(ts, k) == Err::<((Seq<Form>, Seq<Form>), int), (bool, Seq<char>)>(
                err_of(e),
            ) && (!err_of(e).0 ==> stream_from(final(tokens).upcoming(), ts, k))) || (err_of(
                e,
            ).0 && full(*final(engine))),
        },
{
    proof {
        lemma_nonquote_terms_at_advances(ts, k);
    }
    let redex = match parse_nonquote_terms(engine, tokens, Ghost(ts), Ghost(k)) {
        Ok(redex) => redex,
        Err(e) => return Err(ParseError::Consumed(e)),
    };
    let ghost mid = engine.symbols();
    let ghost j = nonquote_terms_at(ts, k).1;
    let token = tokens.peek();
    assert(at(tokens.upcoming(), 0) == at(ts, j));
    match token {
        Token::Equals => {
            tokens.advance();
            let reduction = match parse_terms(engine, tokens, Ghost(ts), Ghost(j + 1)) {
                Ok(reduction) => reduction,
                Err(e) => return Err(ParseError::Consumed(e)),
            };
            let ghost n = terms_at(ts, j + 1)->Ok_0.1;
            assert(at(tokens.upcoming(), 0) == at(ts, n));
            match tokens.next() {
                Some(Token::Period) => {
                    proof {
                        lemma_all_known_grows(mid.len(), engine.symbols().len(), views(redex@));
                        lemma_forms_grow(mid, engine.symbols(), views(redex@));
                    }
                    Ok(Rule { redex, reduction })
                },
                Some(token) => Err(ParseError::Consumed(expected("Expected ';' but found ", &token))),
                None => Err(ParseError::Consumed(String::from_str("Expected ';'"))),
            }
        },
        _ => {
            let s = expected("Expected '=' but found ", &token);
            if redex.len() == 0 {
                assert(j == k) by {
                    if j != k {
                        assert(nonquote_term_at(ts, k) is Ok);
                    }
                };
                Err(ParseError::DidNotConsume(s))
            } else {
                Err(ParseError::Consumed(s))
            }
        },
    }
}

fn parse_rules(
    engine: &mut Engine,
    tokens: &mut Tokens,
    Ghost(ts): Ghost<Seq<TokenView>>,
    Ghost(k): Ghost<int>,
) -> (r: Result<Vec<Rule>, ParseError>)
    requires
        old(engine).wf(),
        old(tokens).wf(),
        stream_from(old(tokens).upcoming(), ts, k),
    ensures
        grows(*old(engine), *final(engine)),
        final(tokens).wf(),
        r is Ok ==> flat_rules(rule_views(r->Ok_0@)) && rules_known(
            final(engine).symbols().len(),
            rule_views(r->Ok_0@),
        ),
        match r {
            Ok(v) => rules_at(ts, k) is Ok && rule_forms(final(engine).symbols(), rule_views(v@))
                == rules_at(ts, k)->Ok_0.0 && stream_from(
                final(tokens).upcoming(),
                ts,
                rules_at(ts, k)->Ok_0.1,
            ),
            Err(e) => err_of(e).0 && (rules_at(ts, k) == Err::<
                (Seq<(Seq<Form>, Seq<Form>)>, int),
                Seq<char>,
            >(err_of(e).1) || full(*final(engine))),
        },
{
    let mut rules: Vec<Rule> = Vec::new();
    let ghost mut kc: int = k;
    loop
        invariant
            grows(*old(engine), *engine),
            tokens.wf(),
            flat_rules(rule_views(rules@)),
            rules_known(engine.symbols().len(), rule_views(rules@)),
            0 <= k <= kc,
            stream_from(tokens.upcoming(), ts, kc),
            rules_at(ts, k) == prepend(
                rule_forms(engine.symbols(), rule_views(rules@)),
                rules_at(ts, kc),
            ),
        decreases tokens.size(),
    {
        let ghost before = engine.symbols();
        let ghost old_rules = rule_views(rules@);
        proof {
            lemma_rule_at_advances(ts, kc);
        }
        match parse_rule(engine, tokens, Ghost(ts), Ghost(kc)) {
            Ok(rule) => {
                rules.push(rule);
                let ghost n = engine.symbols();
                assert(rule_views(rules@) =~= old_rules.push(rule@));
                assert forall|i: int| 0 <= i < old_rules.len() implies all_known(
                    n.len(),
                    #[trigger] old_rules[i].redex,
                ) && all_known(n.len(), old_rules[i].reduction) by {
                    lemma_all_known_grows(before.len(), n.len(), old_rules[i].redex);
                    lemma_all_known_grows(before.len(), n.len(), old_rules[i].reduction);
                }
                proof {
                    let (f, j) = rule_at(ts, kc)->Ok_0;
                    assert forall|i: int| 0 <= i < old_rules.len() implies #[trigger] rule_forms(
                        before,
                        old_rules,
                    )[i] == rule_forms(n, old_rules)[i] by {
                        lemma_forms_grow(before, n, old_rules[i].redex);
                        lemma_forms_grow(before, n, old_rules[i].reduction);
                    }
                    let done = rule_forms(n, old_rules);
                    assert(rule_forms(before, old_rules) =~= done);
                    assert(rule_forms(n, rule_views(rules@)) =~= done.push(f));
                    match rules_at(ts, j) {
                        Ok((fs, m)) => {
                            assert(done + (seq![f] + fs) =~= done.push(f) + fs);
                        },
                        Err(m) => {},
                    }
                    kc = j;
                }
            },
            Err(ParseError::Consumed(err)) => {
                return Err(ParseError::Consumed(err));
            },
            Err(ParseError::DidNotConsume(_)) => {
                let ghost n = engine.symbols();
                assert forall|i: int| 0 <= i < old_rules.len() implies all_known(
                    n.len(),
                    #[trigger] old_rules[i].redex,
                ) && all_known(n.len(), old_rules[i].reduction) by {
                    lemma_all_known_grows(before.len(), n.len(), old_rules[i].redex);
                    lemma_all_known_grows(before.len(), n.len(), old_rules[i].reduction);
                }
                proof {
                    assert forall|i: int| 0 <= i < old_rules.len() implies #[trigger] rule_forms(
                        before,
                        old_rules,
                    )[i] == rule_forms(n, old_rules)[i] by {
                        lemma_forms_grow(before, n, old_rules[i].redex);
                        lemma_forms_grow(before, n, old_rules[i].reduction);
                    }
                    let done = rule_forms(n, old_rules);
                    assert(rule_forms(before, old_rules) =~= done);
                    assert(done + Seq::<(Seq<Form>, Seq<Form>)>::empty() =~= done);
                }
                return Ok(rules);
            },
        }
    }
}

/// A stream over the text, at its start.
fn start(input: &str) -> (r: Tokens)
    ensures
        r.wf(),
        stream_from(r.upcoming(), lex(input@), 0),
{
    let r = Tokens::new(input);
    assert(r.upcoming() =~= lex(input@));
    r
}

/// Parses a text that holds exactly one term. Words are interned in `engine`;
/// the only failure beyond those of the grammar is an interner with no key left.
pub fn term(engine: &mut Engine, input: &str) -> (r: Result<Term, String>)
    requires
        old(engine).wf(),
    ensures
        grows(*old(engine), *final(engine)),
        r is Ok ==> known(final(engine).symbols().len(), r->Ok_0@),
        match r {
            Ok(t) => whole(lex(input@), either(term_at(lex(input@), 0))) == Ok::<
                Form,
                Seq<char>,
            >(form_of(final(engine).symbols(), t@)),
            Err(m) => whole(lex(input@), either(term_at(lex(input@), 0))) == Err::<
                Form,
                Seq<char>,
            >(m@) || full(*final(engine)),
        },
{
    let ghost ts = lex(input@);
    let mut tokens = start(input);
    match parse_term(engine, &mut tokens, Ghost(ts), Ghost(0)) {
        Ok(term) => {
            let ghost j = term_at(ts, 0)->Ok_0.1;
            assert(at(tokens.upcoming(), 0) == at(ts, j));
            if tokens.at_eoi() {
                Ok(term)
            } else {
                let next = tokens.peek();
                Err(expected("Expected end of input but found ", &next))
            }
        },
        Err(ParseError::DidNotConsume(err)) => Err(err),
        Err(ParseError::Consumed(err)) => Err(err),
    }
}

/// Parses a text that holds a sequence of terms.
pub fn terms(engine: &mut Engine, input: &str) -> (r: Result<Vec<Term>, String>)
    requires
        old(engine).wf(),
    ensures
        grows(*old(engine), *final(engine)),
        r is Ok ==> all_known(final(engine).symbols().len(), views(r->Ok_0@)),
        match r {
            Ok(v) => whole(lex(input@), terms_at(lex(input@), 0)) == Ok::<
                Seq<Form>,
                Seq<char>,
            >(forms(final(engine).symbols(), views(v@))),
            Err(m) => whole(lex(input@), terms_at(lex(input@), 0)) == Err::<
                Seq<Form>,
                Seq<char>,
            >(m@) || full(*final(engine)),
        },
{
    let ghost ts = lex(input@);
    let mut tokens = start(input);
    match parse_terms(engine, &mut tokens, Ghost(ts), Ghost(0)) {
        Ok(terms) => {
            let ghost j = terms_at(ts, 0)->Ok_0.1;
            assert(at(tokens.upcoming(), 0) == at(ts, j));
            if tokens.at_eoi() {
                Ok(terms)
            } else {
                let next = tokens.peek();
                Err(expected("Expected end of input but found ", &next))
            }
        },
        Err(err) => Err(err),
    }
}

/// Parses a text that holds exactly one rule.
pub fn rule(engine: &mut Engine, input: &str) -> (r: Result<Rule, String>)
    requires
        old(engine).wf(),
    ensures
        grows(*old(engine), *final(engine)),
        r is Ok ==> flat(r->Ok_0@.redex),
        r is Ok ==> all_known(final(engine).symbols().len(), r->Ok_0@.redex) && all_known(
            final(engine).symbols().len(),
            r->Ok_0@.reduction,
        ),
        match r {
            Ok(v) => whole(lex(input@), either(rule_at(lex(input@), 0))) == Ok::<
                (Seq<Form>, Seq<Form>),
                Seq<char>,
            >((forms(final(engine).symbols(), v@.redex), forms(final(engine).symbols(), v@.reduction))),
            Err(m) => whole(lex(input@), either(rule_at(lex(input@), 0))) == Err::<
                (Seq<Form>, Seq<Form>),
                Seq<char>,
            >(m@) || full(*final(engine)),
        },
{
    let ghost ts = lex(input@);
    let mut tokens = start(input);
    match parse_rule(engine, &mut tokens, Ghost(ts), Ghost(0)) {
        Ok(rule) => {
            let ghost j = rule_at(ts, 0)->Ok_0.1;
            assert(at(tokens.upcoming(), 0) == at(ts, j));
            if tokens.at_eoi() {
                Ok(rule)
            } else {
                let next = tokens.peek();
                Err(expected("Expected end of input but found ", &next))
            }
        },
        Err(ParseError::DidNotConsume(err)) => Err(err),
        Err(ParseError::Consumed(err)) => Err(err),
    }
}

/// Parses a text that holds a sequence of rules.
pub fn rules(engine: &mut Engine, input: &str) -> (r: Result<Vec<Rule>, String>)
    requires
        old(engine).wf(),
    ensures
        grows(*old(engine), *final(engine)),
        r is Ok ==> flat_rules(rule_views(r->Ok_0@)),
        r is Ok ==> rules_known(final(engine).symbols().len(), rule_views(r->Ok_0@)),
        match r {
            Ok(v) => whole(lex(input@), rules_at(lex(input@), 0)) == Ok::<
                Seq<(Seq<Form>, Seq<Form>)>,
                Seq<char>,
            >(rule_forms(final(engine).symbols(), rule_views(v@))),
            Err(m) => whole(lex(input@), rules_at(lex(input@), 0)) == Err::<
                Seq<(Seq<Form>, Seq<Form>)>,
                Seq<char>,
            >(m@) || full(*final(engine)),
        },
{
    let ghost ts = lex(input@);
    let mut tokens = start(input);
    match parse_rules(engine, &mut tokens, Ghost(ts), Ghost(0)) {
        Ok(rules) => {
            let ghost j = rules_at(ts, 0)->Ok_0.1;
            assert(at(tokens.upcoming(), 0) == at(ts, j));
            if tokens.at_eoi() {
                Ok(rules)
            } else {
                let next = tokens.peek();
                Err(expected("Expected end of input but found ", &next))
            }
        },
        Err(ParseError::DidNotConsume(err)) => Err(err),
        Err(ParseError::Consumed(err)) => Err(err),
    }
}

} // verus!
