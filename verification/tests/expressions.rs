use dfa_generator::regex::Regex;

fn lit(c: char) -> Regex<char> {
    Regex::Literal(c)
}

#[test]
fn precedence_orders_the_operators() {
    let a = lit('a');
    let b = lit('b');
    assert_eq!(a.precedence(), 5);
    assert_eq!(Regex::<char>::Empty.precedence(), 5);
    assert_eq!(a.alternate(&b).precedence(), 1);
    assert_eq!(a.concatenate(&b).precedence(), 2);
    assert_eq!(a.star().precedence(), 3);
}

#[test]
fn star_wraps_a_copy_of_the_operand() {
    let a = lit('a');
    match a.star() {
        Regex::Star(inner) => assert!(matches!(*inner, Regex::Literal('a'))),
        other => panic!("not a repetition: {:?}", other),
    }
    assert!(matches!(a, Regex::Literal('a')));
}

#[test]
fn concatenate_keeps_the_order_of_the_operands() {
    let a = lit('a');
    let b = lit('b');
    match a.concatenate(&b) {
        Regex::Concatenation(x, y) => {
            assert!(matches!(*x, Regex::Literal('a')));
            assert!(matches!(*y, Regex::Literal('b')));
        }
        other => panic!("not a concatenation: {:?}", other),
    }
}

#[test]
fn alternate_keeps_the_order_of_the_operands() {
    let a = lit('a');
    let b = lit('b');
    match a.alternate(&b) {
        Regex::Alternative(x, y) => {
            assert!(matches!(*x, Regex::Literal('a')));
            assert!(matches!(*y, Regex::Literal('b')));
        }
        other => panic!("not an alternative: {:?}", other),
    }
}

#[test]
fn duplicate_copies_the_whole_tree() {
    let r = lit('a').concatenate(&lit('b').alternate(&Regex::Empty)).star();
    assert_eq!(r.duplicate().to_string(), r.to_string());
    assert_eq!(r.clone().to_string(), "(a(b|\u{3b5}))*");
}

#[test]
fn renders_atoms() {
    assert_eq!(lit('x').to_string(), "x");
    assert_eq!(Regex::<char>::Empty.to_string(), "\u{3b5}");
}

#[test]
fn renders_alternation_inside_concatenation_in_parentheses() {
    let r = lit('B').alternate(&lit('C')).concatenate(&lit('D'));
    assert_eq!(r.to_string(), "(B|C)D");
}

#[test]
fn renders_alternation_on_the_right_of_a_concatenation_in_parentheses() {
    let r = lit('A').concatenate(&lit('B').alternate(&lit('C')));
    assert_eq!(r.to_string(), "A(B|C)");
}

#[test]
fn renders_concatenation_inside_alternation_without_parentheses() {
    let r = lit('a').concatenate(&lit('b')).alternate(&lit('c'));
    assert_eq!(r.to_string(), "ab|c");
}

#[test]
fn renders_nested_alternatives_without_parentheses() {
    let r = lit('a').alternate(&lit('b')).alternate(&lit('c'));
    assert_eq!(r.to_string(), "a|b|c");
}

#[test]
fn renders_repetition_of_an_atom_without_parentheses() {
    assert_eq!(lit('a').star().to_string(), "a*");
    assert_eq!(Regex::<char>::Empty.star().to_string(), "\u{3b5}*");
}

#[test]
fn renders_repetition_of_a_repetition_without_parentheses() {
    assert_eq!(lit('a').star().star().to_string(), "a**");
}

#[test]
fn renders_repetition_of_compound_operands_in_parentheses() {
    assert_eq!(lit('a').concatenate(&lit('b')).star().to_string(), "(ab)*");
    assert_eq!(lit('a').alternate(&lit('b')).star().to_string(), "(a|b)*");
}

#[test]
fn renders_repetition_inside_concatenation_without_parentheses() {
    let r = lit('a').star().concatenate(&lit('b'));
    assert_eq!(r.to_string(), "a*b");
}

#[test]
fn renders_the_scenario_expression() {
    let r = lit('A')
        .concatenate(&lit('B').alternate(&lit('C')))
        .concatenate(&lit('D'));
    assert_eq!(r.to_string(), "A(B|C)D");
}

#[test]
fn counts_states_and_transitions() {
    let a = lit('a');
    let b = lit('b');
    assert_eq!(a.count_states(), 1);
    assert_eq!(a.count_transitions(), 1);
    assert_eq!(Regex::<char>::Empty.count_states(), 1);
    assert_eq!(Regex::<char>::Empty.count_transitions(), 1);
    assert_eq!(a.concatenate(&b).count_states(), 2);
    assert_eq!(a.concatenate(&b).count_transitions(), 2);
    assert_eq!(a.alternate(&b).count_states(), 3);
    assert_eq!(a.alternate(&b).count_transitions(), 4);
    assert_eq!(a.star().count_states(), 2);
    assert_eq!(a.star().count_transitions(), 3);
}

#[test]
fn expressions_over_other_symbols_compose() {
    let r = Regex::Literal(1u8).concatenate(&Regex::Literal(2u8)).star();
    assert_eq!(r.precedence(), 3);
    assert_eq!(r.count_states(), 3);
}
