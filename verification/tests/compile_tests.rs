use patgen::charset::CharsetPattern;
use patgen::node::Node;
use patgen::parser::{compile, CompileError, Parser};

fn chars(s: &str) -> Vec<char> {
    s.chars().collect()
}

#[test]
fn bare_class_compiles_to_unit_repeat() {
    let node = compile(&chars("c")).unwrap();
    assert_eq!(node, Node::Repeat(Box::new(Node::Class(CharsetPattern::Consonant)), 1, 1));
}

#[test]
fn vowel_and_digit_classes_compile() {
    assert_eq!(
        compile(&chars("v")).unwrap(),
        Node::Repeat(Box::new(Node::Class(CharsetPattern::Vowel)), 1, 1)
    );
    assert_eq!(
        compile(&chars("d")).unwrap(),
        Node::Repeat(Box::new(Node::Class(CharsetPattern::Digit)), 1, 1)
    );
}

#[test]
fn exact_count_compiles_to_fixed_repeat() {
    let node = compile(&chars("c:3")).unwrap();
    assert_eq!(node, Node::Repeat(Box::new(Node::Class(CharsetPattern::Consonant)), 3, 3));
}

#[test]
fn range_compiles_to_bounded_repeat() {
    let node = compile(&chars("v:2:4")).unwrap();
    assert_eq!(node, Node::Repeat(Box::new(Node::Class(CharsetPattern::Vowel)), 2, 4));
}

#[test]
fn concat_group_compiles_to_sequence() {
    let node = compile(&chars("[c-v]")).unwrap();
    let expected = Node::Repeat(
        Box::new(Node::Sequence(vec![
            Node::Repeat(Box::new(Node::Class(CharsetPattern::Consonant)), 1, 1),
            Node::Repeat(Box::new(Node::Class(CharsetPattern::Vowel)), 1, 1),
        ])),
        1,
        1,
    );
    assert_eq!(node, expected);
}

#[test]
fn choice_group_compiles_to_alternation() {
    let node = compile(&chars("{c-v}")).unwrap();
    let expected = Node::Repeat(
        Box::new(Node::Alternation(vec![
            Node::Repeat(Box::new(Node::Class(CharsetPattern::Consonant)), 1, 1),
            Node::Repeat(Box::new(Node::Class(CharsetPattern::Vowel)), 1, 1),
        ])),
        1,
        1,
    );
    assert_eq!(node, expected);
}

#[test]
fn literal_run_compiles_to_literal() {
    let node = compile(&chars("%hi")).unwrap();
    assert_eq!(node, Node::Literal(vec!['h', 'i']));
}

#[test]
fn space_shorthand_compiles_to_blank_literal() {
    let node = compile(&chars("s")).unwrap();
    assert_eq!(node, Node::Repeat(Box::new(Node::Literal(vec![' '])), 1, 1));
}

#[test]
fn separated_items_compile_to_sequence() {
    let node = compile(&chars("%AB-d")).unwrap();
    let expected = Node::Sequence(vec![
        Node::Literal(vec!['A', 'B']),
        Node::Repeat(Box::new(Node::Class(CharsetPattern::Digit)), 1, 1),
    ]);
    assert_eq!(node, expected);
}

#[test]
fn subset_marker_wraps_literal() {
    let node = compile(&chars("%abc#")).unwrap();
    assert_eq!(
        node,
        Node::Repeat(
            Box::new(Node::Subsequence(Box::new(Node::Literal(vec!['a', 'b', 'c'])))),
            1,
            1
        )
    );
}

#[test]
fn subset_marker_takes_range_suffix() {
    let node = compile(&chars("d#:2")).unwrap();
    assert_eq!(
        node,
        Node::Repeat(
            Box::new(Node::Subsequence(Box::new(Node::Repeat(
                Box::new(Node::Class(CharsetPattern::Digit)),
                1,
                1
            )))),
            2,
            2
        )
    );
}

#[test]
fn nested_groups_compile() {
    let node = compile(&chars("[c-{d-v}]")).unwrap();
    let inner = Node::Repeat(
        Box::new(Node::Alternation(vec![
            Node::Repeat(Box::new(Node::Class(CharsetPattern::Digit)), 1, 1),
            Node::Repeat(Box::new(Node::Class(CharsetPattern::Vowel)), 1, 1),
        ])),
        1,
        1,
    );
    let expected = Node::Repeat(
        Box::new(Node::Sequence(vec![
            Node::Repeat(Box::new(Node::Class(CharsetPattern::Consonant)), 1, 1),
            inner,
        ])),
        1,
        1,
    );
    assert_eq!(node, expected);
}

#[test]
fn inverted_range_is_invalid_range_error() {
    assert_eq!(compile(&chars("c:5:3")), Err(CompileError::InvalidRange));
}

#[test]
fn unclosed_group_is_unbalanced_group_error() {
    assert_eq!(compile(&chars("[c-v")), Err(CompileError::UnbalancedGroup));
}

#[test]
fn stray_close_is_unbalanced_group_error() {
    assert_eq!(compile(&chars("]")), Err(CompileError::UnbalancedGroup));
}

#[test]
fn mismatched_close_is_unbalanced_group_error() {
    assert_eq!(compile(&chars("{c]")), Err(CompileError::UnbalancedGroup));
}

#[test]
fn empty_expression_is_empty_construct_error() {
    assert_eq!(compile(&chars("")), Err(CompileError::EmptyConstruct));
}

#[test]
fn empty_group_is_empty_construct_error() {
    assert_eq!(compile(&chars("[]")), Err(CompileError::EmptyConstruct));
}

#[test]
fn empty_separated_item_is_empty_construct_error() {
    assert_eq!(compile(&chars("c--v")), Err(CompileError::EmptyConstruct));
}

#[test]
fn empty_range_bound_is_empty_construct_error() {
    assert_eq!(compile(&chars("c:")), Err(CompileError::EmptyConstruct));
    assert_eq!(compile(&chars("c::3")), Err(CompileError::EmptyConstruct));
}

#[test]
fn empty_literal_run_is_empty_construct_error() {
    assert_eq!(compile(&chars("%")), Err(CompileError::EmptyConstruct));
}

#[test]
fn unknown_key_is_reported_with_its_character() {
    assert_eq!(compile(&chars("x")), Err(CompileError::UnknownClassKey('x')));
}

#[test]
fn digit_outside_range_is_malformed_token() {
    assert_eq!(compile(&chars("5")), Err(CompileError::MalformedToken('5')));
}

#[test]
fn token_inside_open_token_is_malformed_token() {
    assert_eq!(compile(&chars("cv")), Err(CompileError::MalformedToken('v')));
}

#[test]
fn third_range_separator_is_malformed_token() {
    assert_eq!(compile(&chars("c:1:2:")), Err(CompileError::MalformedToken(':')));
}

#[test]
fn unrepresentable_range_value_is_malformed_token() {
    assert_eq!(compile(&chars("c:4294967296")), Err(CompileError::MalformedToken('6')));
    assert_eq!(
        compile(&chars("c:4294967295")).unwrap(),
        Node::Repeat(Box::new(Node::Class(CharsetPattern::Consonant)), u32::MAX, u32::MAX)
    );
}

#[test]
fn error_messages_name_the_kind() {
    assert_eq!(CompileError::MalformedToken('?').message(), "unexpected token");
    assert_eq!(CompileError::UnbalancedGroup.message(), "unbalanced group");
    assert_eq!(CompileError::EmptyConstruct.message(), "empty construct");
    assert_eq!(CompileError::InvalidRange.message(), "invalid range");
    assert_eq!(CompileError::UnknownClassKey('x').message(), "unknown class key");
}

#[test]
fn vec_char_to_number_reads_base_ten() {
    assert_eq!(patgen::parser::vec_char_to_number(&vec![]), None);
    assert_eq!(patgen::parser::vec_char_to_number(&vec!['9']), Some(9));
    assert_eq!(patgen::parser::vec_char_to_number(&vec!['0', '4', '2']), Some(42));
    assert_eq!(
        patgen::parser::vec_char_to_number(&vec!['4', '2', '9', '4', '9', '6', '7', '2', '9', '5']),
        Some(u32::MAX)
    );
}

#[test]
fn parser_type_compiles_like_the_free_function() {
    let mut p = Parser::new();
    let direct = p.parse_pattern(&chars("c:2-v"));
    assert_eq!(direct, compile(&chars("c:2-v")));
    assert!(direct.is_ok());
}

#[test]
fn charsets_hold_the_fixed_lists() {
    let cons = CharsetPattern::Consonant.charset();
    let vows = CharsetPattern::Vowel.charset();
    let digs = CharsetPattern::Digit.charset();
    assert_eq!(cons.len(), 21);
    assert_eq!(vows, vec!['a', 'e', 'i', 'o', 'u']);
    assert_eq!(digs, vec!['0', '1', '2', '3', '4', '5', '6', '7', '8', '9']);
    for v in vows.iter() {
        assert!(!cons.contains(v));
    }
}
