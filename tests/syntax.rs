use mlatu::parse::{display_token, Token, Tokens};
use mlatu::{parse, pretty, Engine, Primitive, Rule, Symbol, Term};

fn words(tokens: &mut Tokens) -> Vec<String> {
    let mut out = Vec::new();
    loop {
        let t = tokens.next().unwrap();
        if t.is_end() {
            return out;
        }
        out.push(display_token(&t));
    }
}

#[test]
fn tokens_split_words_and_delimiters() {
    let mut tokens = Tokens::new("ab(c)  d=e.\tf+g");
    assert_eq!(
        words(&mut tokens),
        vec![
            "word \"ab\"", "(", "word \"c\"", ")", "word \"d\"", "=", "word \"e\"", ".",
            "word \"f\"", "+", "word \"g\"",
        ]
    );
}

#[test]
fn tokens_end_for_ever() {
    let mut tokens = Tokens::new("x");
    assert!(!tokens.at_eoi());
    tokens.advance();
    assert!(tokens.at_eoi());
    tokens.advance();
    assert!(tokens.at_eoi());
    assert_eq!(display_token(&tokens.peek()), "end of input");
}

#[test]
fn iter_next_reads_one_batch() {
    let mut tokens = Tokens::new("  xy~ z");
    let batch = tokens.iter_next();
    assert_eq!(batch.len(), 2);
    assert_eq!(display_token(&batch[0]), "word \"xy\"");
    assert_eq!(display_token(&batch[1]), "~");
    let batch = tokens.iter_next();
    assert_eq!(batch.len(), 2);
    assert_eq!(display_token(&batch[0]), "word \"z\"");
    assert!(batch[1].is_end());
    let batch = tokens.iter_next();
    assert_eq!(batch.len(), 1);
    assert!(batch[0].is_end());
}

#[test]
fn peek_keeps_the_token() {
    let mut tokens = Tokens::new("- <");
    assert_eq!(display_token(&tokens.peek()), "-");
    assert_eq!(display_token(&tokens.peek()), "-");
    tokens.advance();
    assert_eq!(display_token(&tokens.peek()), "<");
}

#[test]
fn display_names_every_token() {
    assert_eq!(display_token(&Token::LeftParen), "(");
    assert_eq!(display_token(&Token::RightParen), ")");
    assert_eq!(display_token(&Token::Period), ".");
    assert_eq!(display_token(&Token::Equals), "=");
    assert_eq!(display_token(&Token::Prim(Primitive::Combine)), ",");
    assert_eq!(display_token(&Token::Word("hi".to_string())), "word \"hi\"");
    assert_eq!(display_token(&Token::EndOfInput), "end of input");
}

#[test]
fn primitive_symbols() {
    assert_eq!(Primitive::Copy.to_string(), "+");
    assert_eq!(Primitive::Discard.to_string(), "-");
    assert_eq!(Primitive::Wrap.to_string(), ">");
    assert_eq!(Primitive::Unwrap.to_string(), "<");
    assert_eq!(Primitive::Swap.to_string(), "~");
    assert_eq!(Primitive::Combine.to_string(), ",");
}

#[test]
fn interner_shares_symbols() {
    let mut engine = Engine::new();
    assert_eq!(engine.symbol_count(), 0);
    let a = engine.get_or_intern("alpha".to_string());
    let b = engine.get_or_intern("beta".to_string());
    let a2 = engine.get_or_intern("alpha".to_string());
    assert_eq!(a, a2);
    assert_ne!(a, b);
    assert_eq!(engine.symbol_count(), 2);
    assert_eq!(engine.resolve(&a), "alpha");
    assert_eq!(engine.resolve(&b), "beta");
}

#[test]
fn arena_hands_back_the_term() {
    let mut engine = Engine::new();
    let s = engine.get_or_intern("w".to_string());
    let t = Term::make_word(&engine, s).share();
    assert!(!t.is_quote());
    assert_eq!(pretty::term(&engine, &t), "w");
    let q = Term::make_quote(&engine, vec![t]).share();
    assert!(q.is_quote());
    assert_eq!(pretty::term(&engine, &q), "(w)");
    let p = Term::make_prim(&engine, Primitive::Swap).share();
    assert_eq!(pretty::term(&engine, &p), "~");
    let held = engine.alloc_term(Term::Word(Symbol { index: s.index }));
    assert_eq!(pretty::term(&engine, held), "w");
}

#[test]
fn parse_and_print_terms() {
    let mut engine = Engine::new();
    let ts = parse::terms(&mut engine, "  a (b  (c d) ) ~ ").unwrap();
    assert_eq!(ts.len(), 3);
    assert_eq!(pretty::terms(&engine, &ts), "a (b (c d)) ~");
    let t = parse::term(&mut engine, "(x y)").unwrap();
    assert_eq!(pretty::term(&engine, &t), "(x y)");
}

#[test]
fn parse_errors() {
    let mut engine = Engine::new();
    assert_eq!(
        parse::terms(&mut engine, "(x").err().unwrap(),
        "Expected ')' but found end of input"
    );
    assert_eq!(
        parse::terms(&mut engine, "x )").err().unwrap(),
        "Expected end of input but found )"
    );
    assert_eq!(
        parse::term(&mut engine, "").err().unwrap(),
        "Expected term but found end of input"
    );
    assert_eq!(
        parse::term(&mut engine, "a b").err().unwrap(),
        "Expected end of input but found word \"b\""
    );
    assert_eq!(
        parse::rule(&mut engine, "x = y").err().unwrap(),
        "Expected ';' but found end of input"
    );
    assert_eq!(
        parse::rule(&mut engine, "x y").err().unwrap(),
        "Expected '=' but found end of input"
    );
    assert_eq!(
        parse::rules(&mut engine, "x = y. (z) = w.").err().unwrap(),
        "Expected end of input but found ("
    );
    assert_eq!(
        parse::rules(&mut engine, "x = y. z").err().unwrap(),
        "Expected '=' but found end of input"
    );
}

#[test]
fn parse_and_print_rules() {
    let mut engine = Engine::new();
    let rs = parse::rules(&mut engine, "x = y z. x x = (a) +. q = .").unwrap();
    assert_eq!(rs.len(), 3);
    assert_eq!(pretty::rules(&engine, &rs), "x = y z.\nx x = (a) +.\nq = .\n");
    let r = parse::rule(&mut engine, "a ~ = b").err();
    assert!(r.is_some());
    let r = parse::rule(&mut engine, "a ~ = b.").unwrap();
    assert_eq!(pretty::rule(&engine, &r), "a ~ = b.");
    let empty = Rule::new();
    assert_eq!(pretty::rule(&engine, &empty), " = .");
}

#[test]
fn terms_compare_by_structure() {
    let mut engine = Engine::new();
    let a = parse::term(&mut engine, "(x (y) +)").unwrap();
    let b = parse::term(&mut engine, "( x ( y )+ )").unwrap();
    let c = parse::term(&mut engine, "(x (y) -)").unwrap();
    let d = parse::term(&mut engine, "(x y +)").unwrap();
    assert!(a == b);
    assert!(a != c);
    assert!(a != d);
    let x = engine.get_or_intern("x".to_string());
    let w = parse::term(&mut engine, "x").unwrap();
    assert!(w.is_word_equal_to(x));
    assert!(!a.is_word_equal_to(x));
}

#[test]
fn printed_terms_parse_back() {
    let mut engine = Engine::new();
    let first = parse::terms(&mut engine, "a((b ~)c) , (()) <").unwrap();
    let shown = pretty::terms(&engine, &first);
    assert_eq!(shown, "a ((b ~) c) , (()) <");
    let again = parse::terms(&mut engine, &shown).unwrap();
    assert_eq!(first.len(), again.len());
    for (x, y) in first.iter().zip(again.iter()) {
        assert!(x == y);
    }
}
