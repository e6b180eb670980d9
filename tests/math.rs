use diomanim::math::expression::{classify, parse_latex, CharKind, MathParser};
use diomanim::math::MathNode;

#[test]
fn test_parse_simple_text() {
    let node = parse_latex("abc");
    assert_eq!(node.to_text(), "abc");
}

#[test]
fn test_parse_greek_letters() {
    let node = parse_latex("\\alpha \\beta");
    match node {
        MathNode::Group { children } => {
            assert_eq!(children.len(), 2);
        }
        _ => panic!("Expected group"),
    }
}

#[test]
fn test_parse_fraction() {
    let node = parse_latex("\\frac{a}{b}");
    match node {
        MathNode::Fraction { .. } => {}
        _ => panic!("Expected fraction"),
    }
}

#[test]
fn test_parse_sqrt() {
    let node = parse_latex("\\sqrt{x}");
    match node {
        MathNode::SquareRoot { .. } => {}
        _ => panic!("Expected square root"),
    }
}

#[test]
fn test_node_to_text() {
    let node = MathNode::Text("hello".to_string());
    assert_eq!(node.to_text(), "hello");

    let frac = MathNode::Fraction {
        numerator: Box::new(MathNode::Text("a".to_string())),
        denominator: Box::new(MathNode::Text("b".to_string())),
    };
    assert_eq!(frac.to_text(), "(a) / (b)");
}

#[test]
fn greek_letters_become_symbols() {
    let node = parse_latex("\\alpha \\beta");
    assert_eq!(node.to_text(), "(α β)");
}

#[test]
fn fraction_text() {
    assert_eq!(parse_latex("\\frac{a}{b}").to_text(), "(a) / (b)");
    assert_eq!(parse_latex("\\sqrt{x}").to_text(), "√(x)");
}

#[test]
fn operators_are_padded() {
    assert_eq!(parse_latex("a+b").to_text(), "(a  +  b)");
    match parse_latex("a = b") {
        MathNode::Group { children } => {
            assert_eq!(children.len(), 3);
            match &children[1] {
                MathNode::Operator(op) => assert_eq!(op, "="),
                _ => panic!("Expected operator"),
            }
        }
        _ => panic!("Expected group"),
    }
}

#[test]
fn dollars_and_whitespace_are_trimmed() {
    assert_eq!(parse_latex("$x$").to_text(), "x");
    assert_eq!(parse_latex("$$ x $$").to_text(), "x");
    assert_eq!(parse_latex("  y  ").to_text(), "y");
}

#[test]
fn empty_input_gives_empty_text() {
    match parse_latex("") {
        MathNode::Text(s) => assert_eq!(s, ""),
        _ => panic!("Expected text"),
    }
    match parse_latex("$$") {
        MathNode::Text(s) => assert_eq!(s, ""),
        _ => panic!("Expected text"),
    }
}

#[test]
fn unknown_command_keeps_its_backslash() {
    assert_eq!(parse_latex("\\foo").to_text(), "\\foo");
    assert_eq!(parse_latex("\\infty").to_text(), "∞");
}

#[test]
fn text_runs_include_digits_points_and_commas() {
    assert_eq!(parse_latex("3.14,2").to_text(), "3.14,2");
    assert_eq!(parse_latex("x2 y").to_text(), "(x2 y)");
}

#[test]
fn scripts_markers_yield_no_node() {
    assert_eq!(parse_latex("x^2").to_text(), "(x 2)");
    assert_eq!(parse_latex("a_i").to_text(), "(a i)");
}

#[test]
fn inner_braces_only_nest_depth() {
    assert_eq!(parse_latex("{a{b}c}").to_text(), "(a b c)");
    assert_eq!(parse_latex("{}").to_text(), "");
    assert_eq!(parse_latex("{ a }").to_text(), "a");
}

#[test]
fn fraction_without_groups_gives_nothing() {
    assert_eq!(parse_latex("\\frac a").to_text(), "a");
    assert_eq!(parse_latex("\\frac{a} b").to_text(), "b");
}

#[test]
fn unreadable_characters_are_skipped() {
    assert_eq!(parse_latex("(a)").to_text(), "a");
    assert_eq!(parse_latex("a}b").to_text(), "(a b)");
    assert_eq!(parse_latex("{a(b}").to_text(), "(a b)");
}

#[test]
fn parser_can_be_driven_directly() {
    let mut parser = MathParser::new("$\\pi r$");
    assert_eq!(parser.parse().to_text(), "(π r)");
}

#[test]
fn group_to_text_joins_with_spaces() {
    let g = MathNode::Group {
        children: vec![
            MathNode::Symbol("x".to_string()),
            MathNode::Operator("+".to_string()),
            MathNode::Superscript {
                base: Box::new(MathNode::Text("y".to_string())),
                exponent: Box::new(MathNode::Text("2".to_string())),
            },
            MathNode::Subscript {
                base: Box::new(MathNode::Text("a".to_string())),
                index: Box::new(MathNode::Text("i".to_string())),
            },
        ],
    };
    assert_eq!(g.to_text(), "(x  +  y^2 a_i)");
    assert_eq!(MathNode::Group { children: vec![] }.to_text(), "()");
}

#[test]
fn parser_follows_the_given_kinds() {
    let letter = CharKind { whitespace: false, alphabetic: true, alphanumeric: true };
    let other = CharKind { whitespace: false, alphabetic: false, alphanumeric: false };
    let mut parser = MathParser::from_parts(vec!['a', '+', 'b'], vec![letter, other, letter]);
    assert_eq!(parser.parse().to_text(), "(a  +  b)");
    // the same characters, with `b` declared not to be text, lose the `b`
    let mut parser = MathParser::from_parts(vec!['a', '+', 'b'], vec![letter, other, other]);
    assert_eq!(parser.parse().to_text(), "(a  + )");
}

#[test]
fn characters_are_classified() {
    assert_eq!(classify('a'), CharKind { whitespace: false, alphabetic: true, alphanumeric: true });
    assert_eq!(classify('7'), CharKind { whitespace: false, alphabetic: false, alphanumeric: true });
    assert_eq!(classify(' '), CharKind { whitespace: true, alphabetic: false, alphanumeric: false });
    assert_eq!(classify('λ'), CharKind { whitespace: false, alphabetic: true, alphanumeric: true });
}
