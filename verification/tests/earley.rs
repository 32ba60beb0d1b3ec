use parsekit::earley::grammar::{Grammar, GrammarBuilder};
use parsekit::earley::lexer::Lexer;
use parsekit::earley::parser::{classify, EarleyParser, ParseError, ParseState};
use parsekit::earley::tree1::{build_tree, Tree};
use parsekit::earley::trees::build_trees;
use parsekit::earley::types::{Item, Predicate, Rule, StateSet, Symbol};

/// A terminal's predicate: any function from a lexeme to a verdict.
struct Pred(Box<dyn Fn(&str) -> bool>);

impl Predicate for Pred {
    fn accepts(&self, lexeme: &str) -> bool {
        (self.0)(lexeme)
    }
}

impl std::fmt::Debug for Pred {
    fn fmt(&self, f: &mut std::fmt::Formatter) -> std::fmt::Result {
        f.write_str("<predicate>")
    }
}

fn nonterm(name: &str) -> Symbol<Pred> {
    Symbol::nonterm(name)
}

fn terminal(name: &str, f: impl Fn(&str) -> bool + 'static) -> Symbol<Pred> {
    Symbol::terminal(name, Pred(Box::new(f)))
}

fn lexemes(text: &str, operators: &str) -> Vec<String> {
    Lexer::from_str(text, operators).rest()
}

/// The positions of the leaves of a tree, from left to right.
fn leaves(t: &Tree, out: &mut Vec<usize>) {
    match t {
        Tree::Leaf { at, .. } => out.push(*at),
        Tree::Node { kids, .. } => {
            for k in kids {
                leaves(k, out);
            }
        }
    }
}

fn leaf_lexemes(t: &Tree, tokens: &[String]) -> Vec<String> {
    let mut at = Vec::new();
    leaves(t, &mut at);
    at.into_iter().map(|i| tokens[i].clone()).collect()
}

#[test]
fn symbol_uniqueness() {
    // test equalty operators
    fn testfn(o: &str) -> bool {
        o.len() == 1 && "+-".contains(o)
    }
    assert_eq!(nonterm("sym1"), nonterm("sym1"));
    // predicates have no form to compare, so these shouldn't match
    assert!(terminal("+-", testfn) != terminal("+-", testfn));
    assert!(terminal("X", |_| true) != terminal("X", |_| true));

    let gb = GrammarBuilder::new()
        .symbol(nonterm("S"))
        .symbol(terminal("+-", testfn))
        .symbol(terminal("[0-9]", |n: &str| n.len() == 1 && "1234567890".contains(n)))
        .rule("S", vec!["S", "+-", "[0-9]"]);
    assert_eq!(gb.rules[0], Rule::new(0, vec![0, 1, 2]));
    let rule = 0;

    // test item comparison
    assert_eq!(Item::new(rule, 0, 0, 0), Item::new(rule, 0, 0, 0));
    assert!(Item::new(rule, 0, 0, 0) != Item::new(rule, 0, 1, 0));

    // check that items are deduped in statesets
    let mut ss = StateSet::new();
    ss.push(Item::new(rule, 0, 0, 0));
    ss.push(Item::new(rule, 0, 0, 0));
    assert_eq!(ss.len(), 1);
    ss.push(Item::new(rule, 1, 0, 1));
    assert_eq!(ss.len(), 2);

    let ix = Item::new(rule, 2, 3, 3);
    let vi = vec![ix.clone(), ix.clone(), ix.clone(), ix.clone()];
    ss.extend(vi);
    assert_eq!(ss.len(), 3);
}

#[test]
fn symbol_nullable() {
    let gb = GrammarBuilder::<Pred>::new()
        .symbol(nonterm("A"))
        .symbol(nonterm("B"))
        .rule("A", Vec::new())
        .rule("A", vec!["B"])
        .rule("B", vec!["A"]);
    let g = gb.into_grammar("A");
    assert!(g.is_nullable("A"));
    assert!(g.is_nullable("B"));
}

// Sum -> Sum + Mul | Mul
// Mul -> Mul * Pow | Pow
// Pow -> Num ^ Pow | Num
// Num -> Number | ( Sum )

fn grammar_math() -> Grammar<Pred> {
    let gb = GrammarBuilder::new()
        // register some symbols
        .symbol(nonterm("Sum"))
        .symbol(nonterm("Mul"))
        .symbol(nonterm("Pow"))
        .symbol(nonterm("Num"))
        .symbol(terminal("Number", |n: &str| n.chars().all(|c| "1234567890".contains(c))))
        .symbol(terminal("[+-]", |n: &str| n.len() == 1 && "+-".contains(n)))
        .symbol(terminal("[*/]", |n: &str| n.len() == 1 && "*/".contains(n)))
        .symbol(terminal("[^]", |n: &str| n == "^"))
        .symbol(terminal("(", |n: &str| n == "("))
        .symbol(terminal(")", |n: &str| n == ")"))
        // add grammar rules
        .rule("Sum", vec!["Sum", "[+-]", "Mul"])
        .rule("Sum", vec!["Mul"])
        .rule("Mul", vec!["Mul", "[*/]", "Pow"])
        .rule("Mul", vec!["Pow"])
        .rule("Pow", vec!["Num", "[^]", "Pow"])
        .rule("Pow", vec!["Num"])
        .rule("Num", vec!["(", "Sum", ")"])
        .rule("Num", vec!["Number"]);

    let grammar = gb.into_grammar("Sum");
    assert_eq!(grammar.rules("Sum").len(), 2);
    assert_eq!(grammar.rules("Mul").len(), 2);
    assert_eq!(grammar.rules("Pow").len(), 2);
    assert_eq!(grammar.rules("Num").len(), 2);
    grammar
}

fn print_statesets(ss: &Vec<StateSet>) {
    for (idx, stateset) in ss.iter().enumerate() {
        println!("=== {} ===", idx);
        for i in 0..stateset.len() {
            println!("{:?}", stateset.get(i));
        }
    }
}

///////////////////////////////////////////////////////////////////////////////

#[test]
fn test_badparse() {
    let mut input = Lexer::from_str("1+", "+*");
    let out = EarleyParser::new(grammar_math()).parse(&mut input);
    assert_eq!(out.unwrap_err(), ParseError::BadInput);
}

#[test]
fn test_partialparse() {
    let gb = GrammarBuilder::new()
        .symbol(nonterm("Start"))
        .symbol(terminal("+", |n: &str| n == "+"))
        .rule("Start", vec!["+", "+"]);
    let mut input = Lexer::from_str("+++", "+");
    let out = EarleyParser::new(gb.into_grammar("Start")).parse(&mut input);
    assert_eq!(out.unwrap_err(), ParseError::PartialParse);
}

#[test]
fn grammar_ambiguous() {
    // S -> SS | b
    let gb = GrammarBuilder::new()
        .symbol(nonterm("S"))
        .symbol(terminal("b", |n: &str| n == "b"))
        .rule("S", vec!["S", "S"])
        .rule("S", vec!["b"]);
    // Earley's corner case that generates spurious trees for bbb
    let mut input = Lexer::from_str("b b b", " ");
    let p = EarleyParser::new(gb.into_grammar("S"));
    let ps = p.parse(&mut input).unwrap();
    assert_eq!(ps.states.len(), 4);
    print_statesets(&ps.states);
    println!("=== tree ===");
    for t in build_trees(&p.g, &ps, 1000) {
        println!("{:?}", t);
    }
}

#[test]
fn math_grammar_test() {
    let p = EarleyParser::new(grammar_math());
    let mut input = Lexer::from_str("1+(2*3-4)", "+*-/()");
    let ps = p.parse(&mut input).unwrap();
    assert_eq!(ps.states.len(), 10);
    print_statesets(&ps.states);
    println!("=== tree ===");
    println!("{:?}", build_tree(&p.g, &ps));
}

#[test]
fn test_left_recurse() {
    // S -> S + N | N
    // N -> [0-9]
    let gb = GrammarBuilder::new()
        .symbol(nonterm("S"))
        .symbol(nonterm("N"))
        .symbol(terminal("[+]", |n: &str| n == "+"))
        .symbol(terminal("[0-9]", |n: &str| "1234567890".contains(n)))
        .rule("S", vec!["S", "[+]", "N"])
        .rule("S", vec!["N"])
        .rule("N", vec!["[0-9]"]);
    let p = EarleyParser::new(gb.into_grammar("S"));
    let mut input = Lexer::from_str("1+2", "+");
    let ps = p.parse(&mut input).unwrap();
    print_statesets(&ps.states);
    println!("=== tree ===");
    println!("{:?}", build_tree(&p.g, &ps));
}

#[test]
fn test_right_recurse() {
    // P -> N ^ P | N
    // N -> [0-9]
    let gb = GrammarBuilder::new()
        .symbol(nonterm("P"))
        .symbol(nonterm("N"))
        .symbol(terminal("[^]", |n: &str| n == "^"))
        .symbol(terminal("[0-9]", |n: &str| "1234567890".contains(n)))
        .rule("P", vec!["N", "[^]", "P"])
        .rule("P", vec!["N"])
        .rule("N", vec!["[0-9]"]);
    let p = EarleyParser::new(gb.into_grammar("P"));
    let mut input = Lexer::from_str("1^2", "^");
    let ps = p.parse(&mut input).unwrap();
    print_statesets(&ps.states);
    println!("=== tree ===");
    println!("{:?}", build_tree(&p.g, &ps));
}

#[test]
fn grammar_empty() {
    // A -> <empty> | B
    // B -> A
    let gb = GrammarBuilder::<Pred>::new()
        .symbol(nonterm("A"))
        .symbol(nonterm("B"))
        .rule("A", Vec::new())
        .rule("A", vec!["B"])
        .rule("B", vec!["A"]);
    let g = gb.into_grammar("A");
    let p = EarleyParser::new(g);
    let mut input = Lexer::from_str("", "-");
    let ps = p.parse(&mut input).unwrap();
    print_statesets(&ps.states);
    println!("=== tree ===");
    println!("{:?}", build_tree(&p.g, &ps));
}

#[test]
fn math_ambiguous() {
    // E -> E + E | E * E | n
    let gb = GrammarBuilder::new()
        .symbol(nonterm("E"))
        .symbol(terminal("+", |n: &str| n == "+"))
        .symbol(terminal("*", |n: &str| n == "*"))
        .symbol(terminal("n", |n: &str| n.chars().all(|c| "1234567890".contains(c))))
        .rule("E", vec!["E", "+", "E"])
        .rule("E", vec!["E", "*", "E"])
        .rule("E", vec!["n"]);
    // parse something ... should return 2 parse trees
    let p = EarleyParser::new(gb.into_grammar("E"));
    let mut input = Lexer::from_str("0*1*2*3*4*5", "+*");
    let ps = p.parse(&mut input).unwrap();
    print_statesets(&ps.states);
    println!("=== tree ===");
    for t in build_trees(&p.g, &ps, 1000) {
        println!("{:?}", t);
    }
}

#[test]
fn math_various() {
    let p = EarleyParser::new(grammar_math());
    let inputs = vec![
        "1+2^3^4*5/6+7*8^9",
        "(1+2^3)^4*5/6+7*8^9",
        "1+2^3^4*5",
        "(1+2)*3",
    ];
    for input in inputs.iter() {
        println!("============ input: {}", input);
        let mut input = Lexer::from_str(input, "+*-/()^");
        let ps = p.parse(&mut input).unwrap();
        print_statesets(&ps.states);
        println!("=== tree ===");
        println!("{:?}", build_tree(&p.g, &ps));
    }
}

#[test]
fn chained_terminals() {
    let rule_variants = vec![
        vec!["X", "+"],
        vec!["+", "X"],
        vec!["X", "+", "+"],
        vec!["+", "+", "X"],
        vec!["+", "X", "+"],
    ];

    for variant in rule_variants {
        let tokens = match variant.len() {
            2 => "+",
            3 => "++",
            _ => unreachable!(),
        };
        let gb = GrammarBuilder::new()
            .symbol(nonterm("E"))
            .symbol(nonterm("X"))
            .symbol(terminal("+", |n: &str| n == "+"))
            .rule("E", variant.clone())
            .rule("X", Vec::new());
        let p = EarleyParser::new(gb.into_grammar("E"));
        let mut input = Lexer::from_str(tokens, "+");
        let ps = p.parse(&mut input).unwrap();
        print_statesets(&ps.states);
        println!("=== tree === variant {:?} === input {}", variant, tokens);
        println!("{:?}", build_tree(&p.g, &ps));
    }
}

///////////////////////////////////////////////////////////////////////////////

#[test]
fn lexer_splits_operators_words_and_space() {
    assert_eq!(lexemes("1+(2*3-4)", "+*-/()"), vec!["1", "+", "(", "2", "*", "3", "-", "4", ")"]);
    assert_eq!(lexemes("  foo  bar\t+baz\n", "+"), vec!["foo", "bar", "+", "baz"]);
    assert_eq!(lexemes("b b b", " "), vec!["b", "b", "b"]);
    assert_eq!(lexemes("", "-"), Vec::<String>::new());
    assert_eq!(lexemes("   ", "-"), Vec::<String>::new());
    let mut l = Lexer::from_str("a+", "+");
    assert_eq!(l.next(), Some(format!("a")));
    assert_eq!(l.next(), Some(format!("+")));
    assert_eq!(l.next(), None);
    assert_eq!(l.next(), None);
}

#[test]
fn nullable_only_where_the_empty_sequence_is_derived() {
    let g = GrammarBuilder::new()
        .symbol(nonterm("A"))
        .symbol(nonterm("B"))
        .symbol(nonterm("C"))
        .symbol(nonterm("D"))
        .symbol(terminal("x", |n: &str| n == "x"))
        .rule("A", vec!["B", "B"])
        .rule("B", Vec::new())
        .rule("C", vec!["A", "x"])
        .rule("D", vec!["D"])
        .into_grammar("A");
    assert!(g.is_nullable("A"));
    assert!(g.is_nullable("B"));
    assert!(!g.is_nullable("C"));
    assert!(!g.is_nullable("D"));
    assert!(!g.is_nullable("x"));
    assert!(!g.is_nullable("unknown"));
    assert_eq!(g.rules("unknown"), Vec::<usize>::new());
    assert_eq!(g.rules("B"), vec![1]);
}

#[test]
fn push_adds_one_item_or_none() {
    let mut ss = StateSet::new();
    assert!(ss.is_empty());
    assert!(ss.push(Item::new(3, 1, 0, 2)));
    for _ in 0..5 {
        assert!(!ss.push(Item::new(3, 1, 0, 7)));
        assert_eq!(ss.len(), 1);
    }
    assert!(ss.push(Item::new(3, 1, 1, 2)));
    assert!(ss.push(Item::new(3, 2, 0, 2)));
    assert!(ss.push(Item::new(4, 1, 0, 2)));
    assert_eq!(ss.len(), 4);
    assert!(ss.contains(&Item::new(4, 1, 0, 0)));
    assert!(!ss.contains(&Item::new(4, 1, 1, 2)));
    assert_eq!(ss.get(0).end, 2);
}

#[test]
fn tree_of_arithmetic_reads_back_the_lexemes() {
    let p = EarleyParser::new(grammar_math());
    let tokens = lexemes("1+(2*3-4)", "+*-/()");
    let mut input = Lexer::from_str("1+(2*3-4)", "+*-/()");
    let ps = p.parse(&mut input).unwrap();
    assert!(!ps.states.is_empty());
    let tree = build_tree(&p.g, &ps).unwrap();
    assert_eq!(leaf_lexemes(&tree, &tokens), tokens);
    match &tree {
        Tree::Node { rule, origin, end, kids } => {
            assert_eq!((*rule, *origin, *end), (0, 0, 9));
            assert_eq!(kids.len(), 3);
            assert_eq!(kids[1], Tree::Leaf { symbol: 5, at: 1 });
        }
        _ => panic!("the root is a node"),
    }
}

#[test]
fn ambiguous_grammar_shows_each_derivation() {
    let gb = GrammarBuilder::new()
        .symbol(nonterm("S"))
        .symbol(terminal("b", |n: &str| n == "b"))
        .rule("S", vec!["S", "S"])
        .rule("S", vec!["b"]);
    let p = EarleyParser::new(gb.into_grammar("S"));
    let tokens = lexemes("b b b", " ");
    let ps = p.parse(&mut Lexer::from_str("b b b", " ")).unwrap();
    assert_eq!(ps.states.len(), 4);
    let trees = build_trees(&p.g, &ps, 1000);
    assert_eq!(trees.len(), 2);
    assert!(trees[0] != trees[1]);
    for t in trees.iter() {
        assert_eq!(leaf_lexemes(t, &tokens), tokens);
    }
    assert_eq!(build_trees(&p.g, &ps, 1).len(), 1);
    assert_eq!(build_trees(&p.g, &ps, 0).len(), 0);
}

#[test]
fn products_of_six_numbers_group_in_42_ways() {
    let gb = GrammarBuilder::new()
        .symbol(nonterm("E"))
        .symbol(terminal("+", |n: &str| n == "+"))
        .symbol(terminal("*", |n: &str| n == "*"))
        .symbol(terminal("n", |n: &str| n.chars().all(|c| "1234567890".contains(c))))
        .rule("E", vec!["E", "+", "E"])
        .rule("E", vec!["E", "*", "E"])
        .rule("E", vec!["n"]);
    let p = EarleyParser::new(gb.into_grammar("E"));
    let ps = p.parse(&mut Lexer::from_str("0*1*2*3*4*5", "+*")).unwrap();
    let trees = build_trees(&p.g, &ps, 1000);
    assert_eq!(trees.len(), 42);
    for i in 0..trees.len() {
        for j in 0..i {
            assert!(trees[i] != trees[j]);
        }
    }
}

#[test]
fn first_of_all_trees_is_the_tree() {
    let p = EarleyParser::new(grammar_math());
    for text in ["1+(2*3-4)", "1+2^3^4*5/6+7*8^9", "(1+2)*3", "7"] {
        let ps = p.parse(&mut Lexer::from_str(text, "+*-/()^")).unwrap();
        let one = build_tree(&p.g, &ps).unwrap();
        let all = build_trees(&p.g, &ps, 10);
        assert_eq!(all.len(), 1);
        assert_eq!(all[0], one);
    }
}

#[test]
fn parsing_twice_gives_equal_charts() {
    let p = EarleyParser::new(grammar_math());
    let a = p.parse(&mut Lexer::from_str("1+(2*3-4)", "+*-/()")).unwrap();
    let b = p.parse(&mut Lexer::from_str("1+(2*3-4)", "+*-/()")).unwrap();
    assert_eq!(a, b);
    assert_eq!(a.states.len(), 10);
    let bad1 = p.parse(&mut Lexer::from_str("1+", "+"));
    let bad2 = p.parse(&mut Lexer::from_str("1+", "+"));
    assert_eq!(bad1, bad2);
}

#[test]
fn epsilon_rules_give_childless_nodes() {
    let gb = GrammarBuilder::new()
        .symbol(nonterm("E"))
        .symbol(nonterm("X"))
        .symbol(terminal("+", |n: &str| n == "+"))
        .rule("E", vec!["+", "X", "+"])
        .rule("X", Vec::new());
    let p = EarleyParser::new(gb.into_grammar("E"));
    let ps = p.parse(&mut Lexer::from_str("++", "+")).unwrap();
    let tree = build_tree(&p.g, &ps).unwrap();
    let expect = Tree::Node {
        rule: 0,
        origin: 0,
        end: 2,
        kids: vec![
            Tree::Leaf { symbol: 2, at: 0 },
            Tree::Node { rule: 1, origin: 1, end: 1, kids: vec![] },
            Tree::Leaf { symbol: 2, at: 1 },
        ],
    };
    assert_eq!(tree, expect);
}

#[test]
fn input_that_is_consumed_but_not_derived_is_bad() {
    // every lexeme is scanned, a shorter prefix is a sentence, the whole is not
    let gb = GrammarBuilder::new()
        .symbol(nonterm("S"))
        .symbol(terminal("a", |n: &str| n == "a"))
        .symbol(terminal("b", |n: &str| n == "b"))
        .rule("S", vec!["a"])
        .rule("S", vec!["a", "b", "b"]);
    let p = EarleyParser::new(gb.into_grammar("S"));
    assert_eq!(p.parse(&mut Lexer::from_str("a b", " ")), Err(ParseError::BadInput));
    assert_eq!(p.parse(&mut Lexer::from_str("a a", " ")), Err(ParseError::PartialParse));
    assert_eq!(p.parse(&mut Lexer::from_str("b", " ")), Err(ParseError::BadInput));
    assert_eq!(p.parse(&mut Lexer::from_str("", " ")), Err(ParseError::BadInput));
    assert!(p.parse(&mut Lexer::from_str("a b b", " ")).is_ok());
}

#[test]
fn classify_reads_the_chart() {
    let gb = GrammarBuilder::new()
        .symbol(nonterm("S"))
        .symbol(terminal("a", |n: &str| n == "a"))
        .rule("S", vec!["a"]);
    let p = EarleyParser::new(gb.into_grammar("S"));
    let table = p.matches(&vec![format!("a"), format!("zz")]);
    assert_eq!(table, vec![vec![false, true], vec![false, false]]);
    let chart = p.recognize(&table);
    assert_eq!(chart.len(), 3);
    assert!(chart[2].is_empty());
    assert_eq!(classify(&p.g, chart, 2), Err(ParseError::PartialParse));
    let chart = p.recognize(&table[..1].to_vec());
    let ok: Result<ParseState, ParseError> = classify(&p.g, chart, 1);
    assert_eq!(ok.unwrap().states.len(), 2);
}
