use glossa::episemos::grammar::{Grammar, Production, Symbol};
use glossa::episemos::parser::{parse, Candidate, SyntaxTree, SyntaxTreeBranch, SyntaxTreeLeaf};
use glossa::episemos::grammar::Symbol::{NonTerm, Terminal};
use glossa::episemos::parser::SyntaxTree::{Branch, Leaf};

#[derive(Debug, Clone, PartialEq, Eq, PartialOrd, Ord, Hash)]
pub enum LambdaCalcTerm {
    Ident,
    Lambda,
    Dot,
    OpenParen,
    CloseParen,
}

#[derive(Debug, Clone, PartialEq, Eq, PartialOrd, Ord, Hash)]
pub enum LambdaCalcNonTerm {
    Start,
    Var,
    App,
    Lambda,
    Expr,
}

fn lambda_calc_grammar() -> Grammar<LambdaCalcTerm, LambdaCalcNonTerm> {

    Grammar {
        terminals: vec![LambdaCalcTerm::Ident, LambdaCalcTerm::Lambda, LambdaCalcTerm::Dot, LambdaCalcTerm::OpenParen, LambdaCalcTerm::CloseParen],
        non_terminals: vec![LambdaCalcNonTerm::Start, LambdaCalcNonTerm::Var, LambdaCalcNonTerm::App, LambdaCalcNonTerm::Lambda, LambdaCalcNonTerm::Expr],
        starting_non_term: LambdaCalcNonTerm::Start,
        productions: vec![
            Production { input: LambdaCalcNonTerm::Start, output: vec![NonTerm(LambdaCalcNonTerm::Expr)] },
            Production { input: LambdaCalcNonTerm::Var, output: vec![Terminal(LambdaCalcTerm::Ident)] },
            Production {
                input: LambdaCalcNonTerm::Lambda,
                output: vec![
                    Terminal(LambdaCalcTerm::Lambda),
                    Terminal(LambdaCalcTerm::Ident),
                    Terminal(LambdaCalcTerm::Dot),
                    NonTerm(LambdaCalcNonTerm::Expr),
                ],
            },
            Production { input: LambdaCalcNonTerm::App, output: vec![NonTerm(LambdaCalcNonTerm::Var), NonTerm(LambdaCalcNonTerm::Expr)] },
            Production { input: LambdaCalcNonTerm::App, output: vec![NonTerm(LambdaCalcNonTerm::App), NonTerm(LambdaCalcNonTerm::Expr)] },
            Production {
                input: LambdaCalcNonTerm::App,
                output: vec![
                    Terminal(LambdaCalcTerm::OpenParen),
                    NonTerm(LambdaCalcNonTerm::Expr),
                    Terminal(LambdaCalcTerm::CloseParen),
                    NonTerm(LambdaCalcNonTerm::Expr),
                ],
            },
            Production { input: LambdaCalcNonTerm::Expr, output: vec![NonTerm(LambdaCalcNonTerm::Var)] },
            Production { input: LambdaCalcNonTerm::Expr, output: vec![NonTerm(LambdaCalcNonTerm::Lambda)] },
            Production { input: LambdaCalcNonTerm::Expr, output: vec![NonTerm(LambdaCalcNonTerm::App)] },
            Production {
                input: LambdaCalcNonTerm::Expr,
                output: vec![Terminal(LambdaCalcTerm::OpenParen), NonTerm(LambdaCalcNonTerm::Expr), Terminal(LambdaCalcTerm::CloseParen)],
            },
        ],
    }
}

fn all_solutions(
    grammar: &Grammar<LambdaCalcTerm, LambdaCalcNonTerm>,
    input: &[LambdaCalcTerm],
) -> Vec<SyntaxTree<LambdaCalcTerm, LambdaCalcNonTerm>> {
    let mut solution_iter = parse(grammar, input);
    let mut solutions = Vec::new();
    while let Some(solution) = solution_iter.next() {
        solutions.push(solution.cloned());
    }
    solutions
}

#[test]
fn simple_lambda_calc() {

    let grammar = lambda_calc_grammar();
    let solutions = all_solutions(&grammar, &[LambdaCalcTerm::OpenParen, LambdaCalcTerm::Ident, LambdaCalcTerm::CloseParen]);
    assert_eq!(solutions, &[Branch(SyntaxTreeBranch {
        label: LambdaCalcNonTerm::Start,
        children: vec![Branch(SyntaxTreeBranch {
            label: LambdaCalcNonTerm::Expr,
            children: vec![
                Leaf(SyntaxTreeLeaf { symbol: LambdaCalcTerm::OpenParen }),
                Branch(SyntaxTreeBranch {
                    label: LambdaCalcNonTerm::Expr,
                    children: vec![Branch(SyntaxTreeBranch {
                        label: LambdaCalcNonTerm::Var,
                        children: vec![Leaf(SyntaxTreeLeaf { symbol: LambdaCalcTerm::Ident })],
                    })],
                }),
                Leaf(SyntaxTreeLeaf { symbol: LambdaCalcTerm::CloseParen }),
            ]
        })],
    })]);
}

#[test]
fn lambda_lambda_calc() {

    let grammar = lambda_calc_grammar();
    let solutions = all_solutions(&grammar, &[
        LambdaCalcTerm::OpenParen,
        LambdaCalcTerm::Lambda,
        LambdaCalcTerm::Ident,
        LambdaCalcTerm::Dot,
        LambdaCalcTerm::Ident,
        LambdaCalcTerm::Ident,
        LambdaCalcTerm::CloseParen,
        LambdaCalcTerm::Ident,
    ]);

    assert_eq!(solutions, &[Branch(SyntaxTreeBranch {
        label: LambdaCalcNonTerm::Start,
        children: vec![Branch(SyntaxTreeBranch {
            label: LambdaCalcNonTerm::Expr,
            children: vec![Branch(SyntaxTreeBranch {
                label: LambdaCalcNonTerm::App,
                children: vec![
                    Leaf(SyntaxTreeLeaf { symbol: LambdaCalcTerm::OpenParen }),
                    Branch(SyntaxTreeBranch {
                        label: LambdaCalcNonTerm::Expr,
                        children: vec![Branch(SyntaxTreeBranch {
                            label: LambdaCalcNonTerm::Lambda,
                            children: vec![
                                Leaf(SyntaxTreeLeaf { symbol: LambdaCalcTerm::Lambda }),
                                Leaf(SyntaxTreeLeaf { symbol: LambdaCalcTerm::Ident }),
                                Leaf(SyntaxTreeLeaf { symbol: LambdaCalcTerm::Dot }),
                                Branch(SyntaxTreeBranch {
                                    label: LambdaCalcNonTerm::Expr,
                                    children: vec![Branch(SyntaxTreeBranch {
                                        label: LambdaCalcNonTerm::App,
                                        children: vec![
                                            Branch(SyntaxTreeBranch {
                                                label: LambdaCalcNonTerm::Var,
                                                children: vec![Leaf(SyntaxTreeLeaf {
                                                    symbol: LambdaCalcTerm::Ident,
                                                })],
                                            }),
                                            Branch(SyntaxTreeBranch {
                                                label: LambdaCalcNonTerm::Expr,
                                                children: vec![Branch(SyntaxTreeBranch {
                                                    label: LambdaCalcNonTerm::Var,
                                                    children: vec![Leaf(SyntaxTreeLeaf {
                                                        symbol: LambdaCalcTerm::Ident,
                                                    })],
                                                })],
                                            }),
                                        ],
                                    })],
                                }),
                            ],
                        })],
                    }),
                    Leaf(SyntaxTreeLeaf { symbol: LambdaCalcTerm::CloseParen }),
                    Branch(SyntaxTreeBranch {
                        label: LambdaCalcNonTerm::Expr,
                        children: vec![Branch(SyntaxTreeBranch {
                            label: LambdaCalcNonTerm::Var,
                            children: vec![Leaf(SyntaxTreeLeaf { symbol: LambdaCalcTerm::Ident })],
                        })],
                    }),
                ],
            })],
        })],
    })]);
}

#[test]
fn no_parse_of_an_unknown_or_incomplete_word() {

    let grammar = lambda_calc_grammar();
    assert!(all_solutions(&grammar, &[LambdaCalcTerm::OpenParen, LambdaCalcTerm::Ident]).is_empty());
    assert!(all_solutions(&grammar, &[]).is_empty());
    assert!(all_solutions(&grammar, &[LambdaCalcTerm::Dot]).is_empty());
}

#[test]
fn ambiguous_word_has_every_parse() {

    let grammar = lambda_calc_grammar();
    // "x y z" is an application of an application or of a variable to an application.
    let solutions = all_solutions(&grammar, &[LambdaCalcTerm::Ident, LambdaCalcTerm::Ident, LambdaCalcTerm::Ident]);
    assert_eq!(solutions.len(), 2);
    assert_ne!(solutions[0], solutions[1]);
    for solution in &solutions {
        assert_eq!(solution.count_leaves(), 3);
        assert_eq!(solution.top_symbol(), Symbol::NonTerm(&LambdaCalcNonTerm::Start));
    }
}

#[test]
fn symbol_kinds_and_references() {
    let mut terminal: Symbol<u8, char> = Symbol::Terminal(7);
    let non_terminal: Symbol<u8, char> = Symbol::NonTerm('e');
    assert!(terminal.is_terminal());
    assert!(!terminal.is_non_terminal());
    assert!(non_terminal.is_non_terminal());
    assert!(!non_terminal.is_terminal());
    assert_eq!(non_terminal.as_ref(), Symbol::NonTerm(&'e'));
    assert_eq!(non_terminal.as_ref().cloned(), non_terminal);
    assert_eq!(terminal.as_ref().copied(), Symbol::Terminal(7));
    if let Symbol::Terminal(value) = terminal.as_mut() {
        *value = 9;
    }
    assert_eq!(terminal, Symbol::Terminal(9));
    assert_eq!(terminal.as_mut().copied(), Symbol::Terminal(9));
    assert_eq!(terminal.as_mut().cloned(), Symbol::Terminal(9));
    assert_eq!(Symbol::<u8, char>::default(), Symbol::Terminal(0));
}

#[test]
fn replace_rewrites_from_the_front_and_the_back() {

    let production = Production { input: 'S', output: vec![Terminal(1u8), NonTerm('S')] };
    let mut word = vec![NonTerm('S'), Terminal(0), NonTerm('S')];
    let mut replacement = production.replace(&mut word);
    assert!(replacement.replace_next());
    assert_eq!(replacement.front, 1);
    assert_eq!(replacement.back, 3);
    drop(replacement);
    assert_eq!(word, vec![Terminal(1), NonTerm('S'), Terminal(0), NonTerm('S')]);

    let mut word = vec![NonTerm('S'), Terminal(0), NonTerm('S')];
    let count = production.replace(&mut word).replace_all();
    // Each rewrite searches on just after the place of the last one, up to where the word
    // first ended: the non-terminal that a rewrite brings in is rewritten again while it lies
    // before that end.
    assert_eq!(count, 3);
    assert_eq!(
        word,
        vec![Terminal(1), Terminal(1), Terminal(1), NonTerm('S'), Terminal(0), NonTerm('S')]
    );

    let mut word = vec![NonTerm('S'), Terminal(0), NonTerm('S')];
    let count = production.replace(&mut word).replace_all_rev();
    assert_eq!(count, 2);
    assert_eq!(
        word,
        vec![Terminal(1), NonTerm('S'), Terminal(0), Terminal(1), NonTerm('S')]
    );

    let mut word = vec![Terminal(0u8)];
    let mut replacement = production.replace(&mut word);
    assert!(!replacement.replace_next());
    assert!(!replacement.replace_back());
    assert_eq!(replacement.replace_all(), 0);
}

#[test]
fn trees_count_their_leaves() {
    let tree: SyntaxTree<u8, char> = SyntaxTree::Branch(SyntaxTreeBranch {
        label: 'a',
        children: vec![
            SyntaxTree::Leaf(SyntaxTreeLeaf { symbol: 1 }),
            SyntaxTree::Branch(SyntaxTreeBranch {
                label: 'b',
                children: vec![
                    SyntaxTree::Leaf(SyntaxTreeLeaf { symbol: 2 }),
                    SyntaxTree::Leaf(SyntaxTreeLeaf { symbol: 3 }),
                ],
            }),
        ],
    });
    assert_eq!(tree.count_leaves(), 3);
    assert_eq!(tree.top_symbol(), Symbol::NonTerm(&'a'));
    assert_eq!(SyntaxTreeLeaf { symbol: 5u8 }.count_leaves(), 1);
    let candidate: Candidate<u8, char> = Candidate::from_leaf(4, 6);
    assert_eq!(candidate.start, 4);
    assert_eq!(candidate.length, 1);
    assert_eq!(candidate.syntax_tree.top_symbol(), Symbol::Terminal(&6));
}

#[test]
fn cloned_symbols_and_trees_equal_their_originals() {
    let terminal: Symbol<u8, char> = Terminal(3);
    let non_terminal: Symbol<u8, char> = NonTerm('S');
    assert_eq!(terminal.as_ref().cloned(), terminal);
    assert_eq!(non_terminal.as_ref().cloned(), non_terminal);
    let mut copy = non_terminal.clone();
    assert_eq!(copy.as_mut().cloned(), non_terminal);
    assert!(terminal.as_ref().cloned().is_terminal());

    let (a, b, s) = (1u8, 2u8, 'S');
    let tree: SyntaxTree<&u8, &char> = Branch(SyntaxTreeBranch {
        label: &s,
        children: vec![Leaf(SyntaxTreeLeaf { symbol: &a }), Leaf(SyntaxTreeLeaf { symbol: &b })],
    });
    let cloned = tree.cloned();
    assert_eq!(cloned.count_leaves(), tree.count_leaves());
    assert_eq!(
        cloned,
        Branch(SyntaxTreeBranch {
            label: 'S',
            children: vec![Leaf(SyntaxTreeLeaf { symbol: 1 }), Leaf(SyntaxTreeLeaf { symbol: 2 })],
        })
    );
}

#[test]
fn ambiguous_parses_come_in_increasing_order() {
    // S -> A S | S A | a ; A -> a: "a a a" parses in several ways.
    let grammar: Grammar<char, u8> = Grammar {
        terminals: vec!['a'],
        non_terminals: vec![0, 1],
        starting_non_term: 0,
        productions: vec![
            Production { input: 0, output: vec![NonTerm(1), NonTerm(0)] },
            Production { input: 0, output: vec![NonTerm(0), NonTerm(1)] },
            Production { input: 0, output: vec![Terminal('a')] },
            Production { input: 1, output: vec![Terminal('a')] },
        ],
    };
    let mut solution_iter = parse(&grammar, &['a', 'a', 'a']);
    let mut solutions = Vec::new();
    while let Some(solution) = solution_iter.next() {
        solutions.push(solution.cloned());
    }
    assert!(solutions.len() > 1);
    for pair in solutions.windows(2) {
        assert!(pair[0] < pair[1], "{:?} !< {:?}", pair[0], pair[1]);
    }
    for solution in &solutions {
        assert_eq!(solution.count_leaves(), 3);
    }
}
