use chem_eq::equations::parse::{parse_constituent, parse_equation, tokens_ok, Token};
use chem_eq::equations::rational::{gcd_usize, Rat};
use chem_eq::equations::solve::{balance_equation, create_matrix};
use chem_eq::equations::{
    Component, ComponentType, Equation, EquationConstituent, EquationError,
};
use chem_eq::periodic_table::SymbolTable;

fn elem(element: u32, subscript: usize) -> Token {
    Token::Component(ComponentType::Element(Component { element, subscript }))
}

fn rat_val(r: &Rat) -> i128 {
    let mag = r.num as i128;
    if r.neg {
        -mag
    } else {
        mag
    }
}

fn coefficients(eq: &Equation) -> Vec<usize> {
    let mut v = Vec::new();
    for c in eq.reactants.iter() {
        v.push(c.coefficient);
    }
    for c in eq.products.iter() {
        v.push(c.coefficient);
    }
    v
}

fn water_equation() -> Equation {
    Equation {
        reactants: vec![
            EquationConstituent::new(1, &[(1, 2)]),
            EquationConstituent::new(1, &[(8, 2)]),
        ],
        products: vec![EquationConstituent::new(1, &[(1, 2), (8, 1)])],
    }
}

#[test]
fn constituent_elements() {
    let con = EquationConstituent {
        coefficient: 3,
        components: vec![ComponentType::Element(Component { element: 1, subscript: 2 })],
    };

    let vals = con.elements().unwrap();
    assert_eq!(vals.len(), 1); // one element
    assert_eq!(vals[0].0, 1); // element is hydrogen
    assert_eq!(vals[0].1, 6); // six atoms
}

#[test]
fn test_water() {
    let eq = water_equation(); // H2 + O2 -> H2O

    let (mat, order) = create_matrix(&eq).unwrap();
    assert_eq!(order, vec![1, 8]);
    assert_eq!(mat.len(), 2);
    assert_eq!(mat[0].len(), 3);
    assert_eq!(mat[1].len(), 3);
    let expected: [[i128; 3]; 2] = [[2, 0, -2], [0, 2, -1]];
    for i in 0..2 {
        for j in 0..3 {
            assert_eq!(rat_val(&mat[i][j]), expected[i][j]);
            assert_eq!(mat[i][j].den, 1);
        }
    }
}

#[test]
fn balance_water() {
    // H2 + O2 -> H2O  =>  2H2 + O2 = 2H2O
    let mut eq = water_equation();
    balance_equation(&mut eq).unwrap();
    assert_eq!(coefficients(&eq), vec![2, 1, 2]);
}

#[test]
fn balance_phosphate() {
    // KOH + H3PO4 -> K3PO4 + H2O  =>  3KOH + H3PO4 = K3PO4 + 3H2O
    let mut eq = Equation {
        reactants: vec![
            EquationConstituent::new(1, &[(19, 1), (8, 1), (1, 1)]),
            EquationConstituent::new(1, &[(1, 3), (15, 1), (8, 4)]),
        ],
        products: vec![
            EquationConstituent::new(1, &[(19, 3), (15, 1), (8, 4)]),
            EquationConstituent::new(1, &[(1, 2), (8, 1)]),
        ],
    };
    balance_equation(&mut eq).unwrap();
    assert_eq!(coefficients(&eq), vec![3, 1, 1, 3]);
}

#[test]
fn balance_with_group() {
    // CaCl2 + Na3PO4 -> Ca3(PO4)2 + NaCl  =>  3CaCl2 + 2Na3PO4 = Ca3(PO4)2 + 6NaCl
    let mut eq = Equation {
        reactants: vec![
            EquationConstituent::new(1, &[(20, 1), (17, 2)]),
            EquationConstituent::new(1, &[(11, 3), (15, 1), (8, 4)]),
        ],
        products: vec![
            EquationConstituent {
                coefficient: 1,
                components: vec![
                    ComponentType::Element(Component { element: 20, subscript: 3 }),
                    ComponentType::Multiple(
                        vec![
                            Component { element: 15, subscript: 1 },
                            Component { element: 8, subscript: 4 },
                        ],
                        2,
                    ),
                ],
            },
            EquationConstituent::new(1, &[(11, 1), (17, 1)]),
        ],
    };
    balance_equation(&mut eq).unwrap();
    assert_eq!(coefficients(&eq), vec![3, 2, 1, 6]);
}

#[test]
fn unused_element_fails() {
    // H2 -> H2O: oxygen has no reactant source
    let mut eq = Equation {
        reactants: vec![EquationConstituent::new(1, &[(1, 2)])],
        products: vec![EquationConstituent::new(1, &[(1, 2), (8, 1)])],
    };
    let e = balance_equation(&mut eq).unwrap_err();
    assert!(matches!(e, EquationError::UnusedElement));
    // the equation is left untouched
    assert_eq!(coefficients(&eq), vec![1, 1]);
}

#[test]
fn double_arrow_fails() {
    let tokens = vec![elem(1, 2), Token::Arrow, elem(1, 2), Token::Arrow, elem(1, 2)];
    let e = parse_equation(tokens).unwrap_err();
    assert!(matches!(e, EquationError::DuplicateArrow));
}

#[test]
fn parse_simple_equation() {
    let tokens = vec![
        Token::Coefficient(2),
        elem(1, 2),
        Token::Plus,
        elem(8, 2),
        Token::Arrow,
        Token::Coefficient(2),
        elem(1, 2),
        elem(8, 1),
    ];
    assert!(tokens_ok(&tokens));
    let eq = parse_equation(tokens).unwrap();
    assert_eq!(eq.num_reactants(), 2);
    assert_eq!(eq.num_products(), 1);
    assert_eq!(eq.reactants[0].coefficient, 2);
    assert_eq!(eq.reactants[1].coefficient, 1);
    assert_eq!(eq.products[0].coefficient, 2);
    assert_eq!(eq.products[0].components.len(), 2);
}

#[test]
fn parse_empty_stream_fails() {
    let e = parse_equation(Vec::new()).unwrap_err();
    assert!(matches!(e, EquationError::UnexpectedEndOfInput));
}

#[test]
fn parse_trailing_coefficient_fails() {
    // a coefficient with no component after it
    let tokens = vec![Token::Coefficient(2)];
    let e = parse_equation(tokens).unwrap_err();
    assert!(matches!(e, EquationError::UnexpectedEndOfInput));
}

#[test]
fn parse_unexpected_token_fails() {
    // a second coefficient where a separator is owed
    let tokens = vec![elem(1, 2), Token::Coefficient(4)];
    let e = parse_equation(tokens).unwrap_err();
    assert!(matches!(e, EquationError::UnexpectedToken));
}

#[test]
fn parse_constituent_reads_one() {
    let tokens = vec![Token::Coefficient(3), elem(1, 2), elem(8, 1), Token::Plus, elem(8, 2)];
    let (con, next) = parse_constituent(&tokens, 0).unwrap();
    assert_eq!(con.coefficient, 3);
    assert_eq!(con.components.len(), 2);
    assert_eq!(next, 3);
}

#[test]
fn rebalancing_is_idempotent() {
    // balancing an already-balanced equation keeps its coefficients
    let mut eq = water_equation();
    balance_equation(&mut eq).unwrap();
    let before = coefficients(&eq);
    balance_equation(&mut eq).unwrap();
    assert_eq!(coefficients(&eq), before);
}

#[test]
fn balancing_is_deterministic() {
    let mut a = water_equation();
    let mut b = water_equation();
    balance_equation(&mut a).unwrap();
    balance_equation(&mut b).unwrap();
    assert_eq!(coefficients(&a), coefficients(&b));
}

#[test]
fn coefficients_are_minimal() {
    // oversized input coefficients are replaced by the minimal balance
    let mut eq = Equation {
        reactants: vec![
            EquationConstituent::new(4, &[(1, 2)]),
            EquationConstituent::new(2, &[(8, 2)]),
        ],
        products: vec![EquationConstituent::new(4, &[(1, 2), (8, 1)])],
    };
    balance_equation(&mut eq).unwrap();
    let cs = coefficients(&eq);
    assert_eq!(cs, vec![2, 1, 2]);
    let mut g = cs[0];
    for c in cs.iter() {
        g = gcd_usize(g, *c);
    }
    assert_eq!(g, 1);
}

#[test]
fn balanced_returns_copy() {
    let eq = water_equation();
    let b = eq.balanced().unwrap();
    assert_eq!(coefficients(&b), vec![2, 1, 2]);
    // the original keeps its coefficients
    assert_eq!(coefficients(&eq), vec![1, 1, 1]);
}

#[test]
fn no_integer_solution_within_bound() {
    // X101 -> X needs the scaling factor 101, beyond the search bound
    let mut eq = Equation {
        reactants: vec![EquationConstituent::new(1, &[(1, 101)])],
        products: vec![EquationConstituent::new(1, &[(1, 1)])],
    };
    let e = balance_equation(&mut eq).unwrap_err();
    assert!(matches!(e, EquationError::NoIntegerSolutionFound(100)));
}

#[test]
fn underdetermined_system_fails() {
    // X2 + X -> X3 has two degrees of freedom; no single resolved column
    // balances it, and the final conservation check rejects it
    let mut eq = Equation {
        reactants: vec![
            EquationConstituent::new(1, &[(1, 2)]),
            EquationConstituent::new(1, &[(1, 1)]),
        ],
        products: vec![EquationConstituent::new(1, &[(1, 3)])],
    };
    let e = balance_equation(&mut eq).unwrap_err();
    assert!(matches!(e, EquationError::SingularWithoutSolution));
    assert_eq!(coefficients(&eq), vec![1, 1, 1]);
}

#[test]
fn overflowing_counts_fail() {
    let con = EquationConstituent {
        coefficient: 2,
        components: vec![ComponentType::Element(Component { element: 1, subscript: usize::MAX })],
    };
    let e = con.elements().unwrap_err();
    assert!(matches!(e, EquationError::ArithmeticOverflow));
}

#[test]
fn total_product_elements_merges_duplicates() {
    let eq = Equation {
        reactants: vec![EquationConstituent::new(1, &[(1, 2)])],
        products: vec![
            EquationConstituent::new(2, &[(1, 2), (8, 1)]),
            EquationConstituent::new(1, &[(8, 2)]),
        ],
    };
    let totals = eq.total_product_elements().unwrap();
    assert_eq!(totals, vec![(1, 4), (8, 4)]);
}

#[test]
fn empty_products_balance_is_identity() {
    let eq = Equation {
        reactants: vec![EquationConstituent::new(3, &[(1, 2)])],
        products: vec![],
    };
    let b = eq.balanced().unwrap();
    assert_eq!(b.reactants[0].coefficient, 3);
    assert_eq!(b.num_products(), 0);
}

#[test]
fn has_multiple_distinguishes_groups() {
    let single = ComponentType::Element(Component { element: 8, subscript: 2 });
    let group = ComponentType::Multiple(vec![Component { element: 8, subscript: 4 }], 2);
    assert!(!single.has_multiple());
    assert!(group.has_multiple());
}

#[test]
fn render_balanced_water() {
    let mut table = SymbolTable::new();
    assert!(table.add(1, vec!['H']));
    assert!(table.add(8, vec!['O']));
    let mut eq = water_equation();
    balance_equation(&mut eq).unwrap();
    let s = eq.to_string(&table).unwrap();
    assert_eq!(s, "2H\u{2082} + O\u{2082} = 2H\u{2082}O");
}

#[test]
fn render_group_with_multiplier() {
    let mut table = SymbolTable::new();
    assert!(table.add(15, vec!['P']));
    assert!(table.add(8, vec!['O']));
    assert!(table.add(20, vec!['C', 'a']));
    let eq = Equation {
        reactants: vec![EquationConstituent {
            coefficient: 1,
            components: vec![
                ComponentType::Element(Component { element: 20, subscript: 3 }),
                ComponentType::Multiple(
                    vec![
                        Component { element: 15, subscript: 1 },
                        Component { element: 8, subscript: 4 },
                    ],
                    2,
                ),
            ],
        }],
        products: vec![],
    };
    let s = eq.to_string(&table).unwrap();
    assert_eq!(s, "Ca\u{2083}(PO\u{2084})\u{2082}");
}

#[test]
fn render_unknown_element_fails() {
    let table = SymbolTable::new();
    let eq = water_equation();
    let e = eq.to_string(&table).unwrap_err();
    assert!(matches!(e, EquationError::ElementNotFound));
}

#[test]
fn symbol_table_lookups() {
    let mut table = SymbolTable::new();
    assert!(table.add(1, vec!['H']));
    assert!(table.add(2, vec!['H', 'e']));
    assert!(!table.add(1, vec!['X'])); // duplicate number
    assert!(!table.add(3, vec!['H'])); // duplicate symbol
    assert_eq!(table.by_number(1), Some(&vec!['H']));
    assert_eq!(table.by_number(2), Some(&vec!['H', 'e']));
    assert_eq!(table.by_number(3), None);
    assert_eq!(table.by_symbol(&vec!['H', 'e']), Some(2));
    assert_eq!(table.by_symbol(&vec!['L', 'i']), None);
}

#[test]
fn tokens_ok_rejects_bad_tokens() {
    assert!(!tokens_ok(&vec![Token::Coefficient(0)]));
    assert!(!tokens_ok(&vec![Token::Component(ComponentType::Multiple(vec![], 2))]));
    assert!(tokens_ok(&vec![Token::Coefficient(2), elem(1, 1)]));
}

#[test]
fn round_trip_through_rendering_tokens() {
    // render a balanced equation, re-tokenize it by hand, and reparse:
    // the same composition and coefficients come back
    let mut eq = water_equation();
    balance_equation(&mut eq).unwrap();
    let tokens = vec![
        Token::Coefficient(2),
        elem(1, 2),
        Token::Plus,
        elem(8, 2),
        Token::Arrow,
        Token::Coefficient(2),
        elem(1, 2),
        elem(8, 1),
    ];
    let reparsed = parse_equation(tokens).unwrap();
    assert_eq!(coefficients(&reparsed), coefficients(&eq));
    assert_eq!(reparsed.num_reactants(), eq.num_reactants());
    assert_eq!(reparsed.num_products(), eq.num_products());
}

#[test]
fn canonical_tokens_reparse_identically() {
    // the canonical token sequence of a balanced equation parses back to
    // the same equation, coefficients included
    let mut eq = Equation {
        reactants: vec![
            EquationConstituent::new(1, &[(20, 1), (17, 2)]),
            EquationConstituent::new(1, &[(11, 3), (15, 1), (8, 4)]),
        ],
        products: vec![
            EquationConstituent {
                coefficient: 1,
                components: vec![
                    ComponentType::Element(Component { element: 20, subscript: 3 }),
                    ComponentType::Multiple(
                        vec![
                            Component { element: 15, subscript: 1 },
                            Component { element: 8, subscript: 4 },
                        ],
                        2,
                    ),
                ],
            },
            EquationConstituent::new(1, &[(11, 1), (17, 1)]),
        ],
    };
    balance_equation(&mut eq).unwrap();
    let tokens = chem_eq::equations::parse::equation_tokens_of(&eq);
    let reparsed = parse_equation(tokens).unwrap();
    assert_eq!(coefficients(&reparsed), coefficients(&eq));
    let before = eq.total_product_elements().unwrap();
    let after = reparsed.total_product_elements().unwrap();
    assert_eq!(before, after);
}

#[test]
fn forced_zero_coefficient_fails() {
    // X + XY -> XY forces the first coefficient to zero; a zero on a
    // determined column is an invalid coefficient, not a free one
    let mut eq = Equation {
        reactants: vec![
            EquationConstituent::new(1, &[(1, 1)]),
            EquationConstituent::new(1, &[(1, 1), (8, 1)]),
        ],
        products: vec![EquationConstituent::new(1, &[(1, 1), (8, 1)])],
    };
    let e = balance_equation(&mut eq).unwrap_err();
    assert!(matches!(e, EquationError::ArithmeticOverflow));
    assert_eq!(coefficients(&eq), vec![1, 1, 1]);
}
