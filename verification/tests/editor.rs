use chem_eq::equations::parse::parse_equation;
use chem_eq::equations::solve::balance_equation;
use chem_eq::periodic_table::SymbolTable;
use chem_eq::tui::{
    assemble_tokens, parse_number, subscript_num, subscript_util, TokenEditor, TuiError, TUIToken,
};

fn chemistry_table() -> SymbolTable {
    let mut table = SymbolTable::new();
    assert!(table.add(1, vec!['H']));
    assert!(table.add(8, vec!['O']));
    assert!(table.add(15, vec!['P']));
    assert!(table.add(20, vec!['C', 'a']));
    table
}

#[test]
fn subscript_test() {
    assert_eq!(subscript_num(12), "\u{2081}\u{2082}");
}

#[test]
fn subscript_util_maps_digits() {
    assert_eq!(subscript_util(0), '\u{2080}');
    assert_eq!(subscript_util(9), '\u{2089}');
}

#[test]
fn parse_number_reads_digits() {
    assert_eq!(parse_number(&vec!['1', '2']), Some(12));
    assert_eq!(parse_number(&vec!['7']), Some(7));
    assert_eq!(parse_number(&vec!['0']), None); // zero is rejected
    assert_eq!(parse_number(&Vec::new()), None);
    assert_eq!(parse_number(&vec!['1', 'x']), None);
}

#[test]
fn editor_accumulates_tokens() {
    let mut ed = TokenEditor::new();
    assert_eq!(ed.accept_char('2'), Some('2'));
    assert_eq!(ed.accept_char('H'), Some('H'));
    ed.subscript_start();
    assert_eq!(ed.accept_char('2'), Some('\u{2082}'));
    ed.handle_whitespace();
    ed.handle_token(TUIToken::Plus);
    assert_eq!(ed.tokens.len(), 5);
    assert!(matches!(ed.tokens[0], TUIToken::Coefficient(_)));
    assert!(matches!(ed.tokens[1], TUIToken::Element(_)));
    assert!(matches!(ed.tokens[2], TUIToken::Subscript(_)));
    assert!(matches!(ed.tokens[3], TUIToken::Whitespace(1)));
    assert!(matches!(ed.tokens[4], TUIToken::Plus));
}

#[test]
fn editor_grows_element_symbols() {
    let mut ed = TokenEditor::new();
    assert_eq!(ed.accept_char('C'), Some('C'));
    assert_eq!(ed.accept_char('a'), Some('a'));
    assert_eq!(ed.tokens.len(), 1);
    match &ed.tokens[0] {
        TUIToken::Element(s) => assert_eq!(s, &vec!['C', 'a']),
        _ => panic!("expected an element token"),
    }
}

#[test]
fn editor_backspace_edits_last_token() {
    let mut ed = TokenEditor::new();
    ed.accept_char('C');
    ed.accept_char('a');
    ed.backspace();
    match &ed.tokens[0] {
        TUIToken::Element(s) => assert_eq!(s, &vec!['C']),
        _ => panic!("expected an element token"),
    }
    ed.backspace();
    assert_eq!(ed.tokens.len(), 0);
    ed.backspace(); // empty editor stays empty
    assert_eq!(ed.tokens.len(), 0);
}

#[test]
fn assemble_simple_equation() {
    // "2H2 + O2 = 2H2O" keyed in as raw tokens
    let table = chemistry_table();
    let raw = vec![
        TUIToken::Coefficient(vec!['2']),
        TUIToken::Element(vec!['H']),
        TUIToken::Subscript(vec!['2']),
        TUIToken::Whitespace(1),
        TUIToken::Plus,
        TUIToken::Whitespace(1),
        TUIToken::Element(vec!['O']),
        TUIToken::Subscript(vec!['2']),
        TUIToken::Whitespace(1),
        TUIToken::Equals,
        TUIToken::Whitespace(1),
        TUIToken::Coefficient(vec!['2']),
        TUIToken::Element(vec!['H']),
        TUIToken::Subscript(vec!['2']),
        TUIToken::Element(vec!['O']),
    ];
    let tokens = assemble_tokens(&raw, &table).unwrap();
    let mut eq = parse_equation(tokens).unwrap();
    balance_equation(&mut eq).unwrap();
    assert_eq!(eq.reactants[0].coefficient, 2);
    assert_eq!(eq.reactants[1].coefficient, 1);
    assert_eq!(eq.products[0].coefficient, 2);
}

#[test]
fn assemble_group_with_multiplier() {
    // "Ca3(PO4)2" keyed in as raw tokens
    let table = chemistry_table();
    let raw = vec![
        TUIToken::Element(vec!['C', 'a']),
        TUIToken::Subscript(vec!['3']),
        TUIToken::LParen,
        TUIToken::Element(vec!['P']),
        TUIToken::Element(vec!['O']),
        TUIToken::Subscript(vec!['4']),
        TUIToken::RParen,
        TUIToken::Subscript(vec!['2']),
    ];
    let tokens = assemble_tokens(&raw, &table).unwrap();
    assert_eq!(tokens.len(), 2);
    let eq = parse_equation(tokens).unwrap();
    let totals = eq.reactants[0].elements().unwrap();
    // Ca3(PO4)2: 3 Ca, 2 P, 8 O
    assert_eq!(totals, vec![(8, 8), (15, 2), (20, 3)]);
}

#[test]
fn assemble_rejects_unknown_symbol() {
    let table = chemistry_table();
    let raw = vec![TUIToken::Element(vec!['X', 'x'])];
    let e = assemble_tokens(&raw, &table).unwrap_err();
    assert!(matches!(e, TuiError::ElementNotFound));
}

#[test]
fn assemble_rejects_nested_groups() {
    let table = chemistry_table();
    let raw = vec![TUIToken::LParen, TUIToken::LParen];
    let e = assemble_tokens(&raw, &table).unwrap_err();
    assert!(matches!(e, TuiError::AlreadyParenthesised));
}

#[test]
fn assemble_rejects_zero_subscript() {
    let table = chemistry_table();
    let raw = vec![TUIToken::Element(vec!['H']), TUIToken::Subscript(vec!['0'])];
    let e = assemble_tokens(&raw, &table).unwrap_err();
    assert!(matches!(e, TuiError::BadNumber));
}

#[test]
fn assemble_rejects_dangling_subscript() {
    let table = chemistry_table();
    let raw = vec![TUIToken::Subscript(vec!['2'])];
    let e = assemble_tokens(&raw, &table).unwrap_err();
    assert!(matches!(e, TuiError::SubscriptWithoutPreceding));
}
