use mlatu::{parse, pretty, rewrite, rewrite_step, Engine, Rule};

const STEPS: u64 = 10_000;

fn rewrites_to(engine: &mut Engine, rules: &Vec<Rule>, begin: &str, end: &str) {
    let begin_terms = parse::terms(engine, begin).unwrap();
    let rewritten = rewrite(engine, rules, begin_terms, STEPS);
    assert_eq!(pretty::terms(engine, &rewritten), end.to_owned());
}

#[test]
fn copy_test() {
    let mut engine = Engine::new();
    let none = Vec::new();

    rewrites_to(&mut engine, &none, "(x) +", "(x) (x)");
    rewrites_to(&mut engine, &none, "(x) + (y)", "(x) (x) (y)");
    rewrites_to(&mut engine, &none, "(x) (y) +", "(x) (y) (y)");
    rewrites_to(&mut engine, &none, "(x) (y) + (z)", "(x) (y) (y) (z)");
    rewrites_to(&mut engine, &none, "+", "+");
    rewrites_to(&mut engine, &none, "x +", "x +");
}

#[test]
fn swap_test() {
    let mut engine = Engine::new();
    let none = Vec::new();

    rewrites_to(&mut engine, &none, "(x) (y) ~", "(y) (x)");
    rewrites_to(&mut engine, &none, "(x) (z) (y) ~", "(x) (y) (z)");
    rewrites_to(&mut engine, &none, "(x) (y) ~ (z)", "(y) (x) (z)");

    rewrites_to(&mut engine, &none, "~", "~");
    rewrites_to(&mut engine, &none, "x ~", "x ~");
    rewrites_to(&mut engine, &none, "x y ~", "x y ~");
    rewrites_to(&mut engine, &none, "(x) ~", "(x) ~");
}

#[test]
fn discard_test() {
    let mut engine = Engine::new();
    let none = Vec::new();

    rewrites_to(&mut engine, &none, "(x) -", "");
    rewrites_to(&mut engine, &none, "(x) (y) -", "(x)");
    rewrites_to(&mut engine, &none, "(x) (y) - (z)", "(x) (z)");

    rewrites_to(&mut engine, &none, "-", "-");
    rewrites_to(&mut engine, &none, "x -", "x -");
}

#[test]
fn wrap_test() {
    let mut engine = Engine::new();
    let none = Vec::new();

    rewrites_to(&mut engine, &none, "(x) >", "((x))");
    rewrites_to(&mut engine, &none, "(x) (y) >", "(x) ((y))");
    rewrites_to(&mut engine, &none, "(x) > (y)", "((x)) (y)");
    rewrites_to(&mut engine, &none, "(x) (y) > (z)", "(x) ((y)) (z)");

    rewrites_to(&mut engine, &none, ">", ">");
    rewrites_to(&mut engine, &none, "x >", "x >");
}

#[test]
fn unwrap_test() {
    let mut engine = Engine::new();
    let none = Vec::new();

    rewrites_to(&mut engine, &none, "() <", "");
    rewrites_to(&mut engine, &none, "(x) () <", "(x)");
    rewrites_to(&mut engine, &none, "() < (y)", "(y)");
    rewrites_to(&mut engine, &none, "(x) () < (y)", "(x) (y)");
    rewrites_to(&mut engine, &none, "(y) <", "y");
    rewrites_to(&mut engine, &none, "(x) (y) <", "(x) y");
    rewrites_to(&mut engine, &none, "(x) < (y)", "x (y)");
    rewrites_to(&mut engine, &none, "(x) (y) < (z)", "(x) y (z)");
    rewrites_to(&mut engine, &none, "(x y z) <", "x y z");

    rewrites_to(&mut engine, &none, "<", "<");
    rewrites_to(&mut engine, &none, "x <", "x <");
}

#[test]
fn combine_test() {
    let mut engine = Engine::new();
    let none = Vec::new();

    rewrites_to(&mut engine, &none, "() () ,", "()");
    rewrites_to(&mut engine, &none, "(x) () ,", "(x)");
    rewrites_to(&mut engine, &none, "() (y) ,", "(y)");
    rewrites_to(&mut engine, &none, "(x) (y) ,", "(x y)");

    rewrites_to(&mut engine, &none, ",", ",");
    rewrites_to(&mut engine, &none, "(x) ,", "(x) ,");
    rewrites_to(&mut engine, &none, "x ,", "x ,");
    rewrites_to(&mut engine, &none, "x y ,", "x y ,");
}

#[test]
fn user_defined_test() {
    let mut engine = Engine::new();
    let rules = parse::rules(&mut engine, "x = y z. x x = aaaaaaaaa.").unwrap();

    rewrites_to(&mut engine, &rules, "x", "y z");
    rewrites_to(&mut engine, &rules, "a x", "a y z");
    rewrites_to(&mut engine, &rules, "x a", "y z a");
    rewrites_to(&mut engine, &rules, "a x b", "a y z b");
    rewrites_to(&mut engine, &rules, "x x", "aaaaaaaaa");
}

#[test]
fn copy_keeps_trailing_word() {
    let mut engine = Engine::new();
    rewrites_to(&mut engine, &Vec::new(), "(x) + y", "(x) (x) y");
}

#[test]
fn wrap_then_unwrap_is_identity() {
    let mut engine = Engine::new();
    rewrites_to(&mut engine, &Vec::new(), "(x) > <", "(x)");
    rewrites_to(&mut engine, &Vec::new(), "((a b) c) > <", "((a b) c)");
}

#[test]
fn empty_sequence_is_normal() {
    let mut engine = Engine::new();
    rewrites_to(&mut engine, &Vec::new(), "", "");
    let empty = Vec::new();
    assert!(rewrite_step(&engine, &Vec::new(), &empty).is_none());
}

#[test]
fn nested_quotes_combine_and_copy() {
    let mut engine = Engine::new();
    rewrites_to(&mut engine, &Vec::new(), "((a)) (b c) , +", "((a) b c) ((a) b c)");
}

#[test]
fn rightmost_match_fires_first() {
    let mut engine = Engine::new();
    let rules = parse::rules(&mut engine, "x = y z. x x = aaaaaaaaa.").unwrap();
    rewrites_to(&mut engine, &rules, "x x x", "y z aaaaaaaaa");
}

#[test]
fn earlier_rule_wins_a_tie() {
    let mut engine = Engine::new();
    let rules = parse::rules(&mut engine, "a = b. a = c.").unwrap();
    rewrites_to(&mut engine, &rules, "a", "b");
    let rules = parse::rules(&mut engine, "a = c. a = b.").unwrap();
    rewrites_to(&mut engine, &rules, "a", "c");
}

#[test]
fn longer_builtin_beats_shorter_rule() {
    let mut engine = Engine::new();
    let rules = parse::rules(&mut engine, "+ = z.").unwrap();
    rewrites_to(&mut engine, &rules, "(x) +", "(x) (x)");
    rewrites_to(&mut engine, &rules, "x +", "x z");
}

#[test]
fn rules_feed_builtins() {
    let mut engine = Engine::new();
    let rules = parse::rules(&mut engine, "dup = +. drop = -.").unwrap();
    rewrites_to(&mut engine, &rules, "(a) dup drop", "(a)");
}

#[test]
fn normal_form_is_idempotent() {
    let mut engine = Engine::new();
    let rules = parse::rules(&mut engine, "x = y z. x x = aaaaaaaaa.").unwrap();
    for text in ["x x x", "(x) > < x", "a (b) (c) ~ , x", "(q) + + - x <"] {
        let terms = parse::terms(&mut engine, text).unwrap();
        let once = rewrite(&engine, &rules, terms, STEPS);
        let shown = pretty::terms(&engine, &once);
        assert!(rewrite_step(&engine, &rules, &once).is_none());
        let twice = rewrite(&engine, &rules, once, STEPS);
        assert_eq!(pretty::terms(&engine, &twice), shown);
    }
}

#[test]
fn step_budget_stops_a_divergent_run() {
    let mut engine = Engine::new();
    let rules = parse::rules(&mut engine, "loop = loop.").unwrap();
    let terms = parse::terms(&mut engine, "a loop").unwrap();
    let out = rewrite(&engine, &rules, terms, 50);
    assert_eq!(pretty::terms(&engine, &out), "a loop");
    assert!(rewrite_step(&engine, &rules, &out).is_some());
}

#[test]
fn budget_counts_reductions() {
    let mut engine = Engine::new();
    let terms = parse::terms(&mut engine, "(x) + + +").unwrap();
    let out = rewrite(&engine, &Vec::new(), terms, 1);
    assert_eq!(pretty::terms(&engine, &out), "(x) (x) + +");
    let terms = parse::terms(&mut engine, "(x) + + +").unwrap();
    let out = rewrite(&engine, &Vec::new(), terms, 0);
    assert_eq!(pretty::terms(&engine, &out), "(x) + + +");
}

#[test]
fn single_step_reduces_rightmost() {
    let mut engine = Engine::new();
    let terms = parse::terms(&mut engine, "(a) - (b) -").unwrap();
    let next = rewrite_step(&engine, &Vec::new(), &terms).unwrap();
    assert_eq!(pretty::terms(&engine, &next), "(a) -");
}
