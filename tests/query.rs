use tagquery::node::{Node, Nodes};
use tagquery::parse::ParseError;
use tagquery::token::{Token, Tokens};

fn parse(q: &str) -> Result<Nodes, ParseError> {
    Tokens::new(q).parse()
}

fn tree(q: &str) -> Node {
    parse(q).unwrap().node
}

fn error(q: &str) -> ParseError {
    parse(q).unwrap_err()
}

fn and(v: Vec<Node>) -> Node {
    Node::And(v)
}

fn or(v: Vec<Node>) -> Node {
    Node::Or(v)
}

fn val(i: usize) -> Node {
    Node::Value(i)
}

fn not(n: Node) -> Node {
    Node::Not(Box::new(n))
}

#[test]
fn escaped_split_is_literal() {
    let t = Tokens::new("a\\:b");
    assert_eq!(t.tokens(), &vec![Token::Value(0)]);
    assert_eq!(t.values(), &vec!["a:b".to_string()]);
}

#[test]
fn quoted_text_is_one_value() {
    let t = Tokens::new("\"a & b\"");
    assert_eq!(t.tokens(), &vec![Token::Value(0)]);
    assert_eq!(t.values(), &vec!["a & b".to_string()]);
}

#[test]
fn quote_inside_quotes() {
    let t = Tokens::new("\"a\\\"b\" c");
    assert_eq!(t.tokens(), &vec![Token::Value(0), Token::Value(1)]);
    assert_eq!(t.values(), &vec!["a\"b".to_string(), "c".to_string()]);
}

#[test]
fn unterminated_quote_runs_to_end() {
    let t = Tokens::new("x \"a | b");
    assert_eq!(t.tokens(), &vec![Token::Value(0), Token::Value(1)]);
    assert_eq!(t.values(), &vec!["x".to_string(), "a | b".to_string()]);
}

#[test]
fn trailing_backslash_is_dropped() {
    let t = Tokens::new("ab\\");
    assert_eq!(t.values(), &vec!["ab".to_string()]);
}

#[test]
fn operators_split_words() {
    let t = Tokens::new("cat:dog&(x|-y) zed");
    assert_eq!(
        t.tokens(),
        &vec![
            Token::Value(0),
            Token::Split,
            Token::Value(1),
            Token::And,
            Token::OpenParen,
            Token::Value(2),
            Token::Or,
            Token::Not,
            Token::Value(3),
            Token::CloseParen,
            Token::Value(4),
        ]
    );
    let texts: Vec<&str> = t.values().iter().map(|s| s.as_str()).collect();
    assert_eq!(texts, vec!["cat", "dog", "x", "y", "zed"]);
}

#[test]
fn unicode_text() {
    let t = Tokens::new("héllo wörld");
    assert_eq!(t.values(), &vec!["héllo".to_string(), "wörld".to_string()]);
}

#[test]
fn rendered_tokens_lex_the_same() {
    let t = Tokens::new("a & (b | -c):d e");
    let mut text = String::new();
    for tok in t.tokens() {
        match tok {
            Token::And => text.push('&'),
            Token::Or => text.push('|'),
            Token::Not => text.push('-'),
            Token::OpenParen => text.push('('),
            Token::CloseParen => text.push(')'),
            Token::Split => text.push(':'),
            Token::Value(i) => text.push_str(&t.values()[*i]),
        }
        text.push(' ');
    }
    let again = Tokens::new(&text);
    assert_eq!(again.tokens(), t.tokens());
    assert_eq!(again.values(), t.values());
}

#[test]
fn juxtaposition_binds_tighter_than_or() {
    assert_eq!(tree("a b | c"), or(vec![and(vec![val(0), val(1)]), val(2)]));
}

#[test]
fn and_binds_tighter_than_or() {
    assert_eq!(tree("a | b & c"), or(vec![val(0), and(vec![val(1), val(2)])]));
}

#[test]
fn runs_merge_into_one_node() {
    assert_eq!(tree("a b & c"), and(vec![val(0), val(1), val(2)]));
    assert_eq!(tree("a | b | c"), or(vec![val(0), val(1), val(2)]));
}

#[test]
fn double_negation_cancels() {
    assert_eq!(tree("--a"), tree("a"));
    assert_eq!(tree("--a"), val(0));
    assert_eq!(tree("-a"), not(val(0)));
    assert_eq!(tree("---a"), not(val(0)));
}

#[test]
fn tag_distributes_over_values() {
    let n = parse("(c1 & c2):(v1 | v2)").unwrap();
    let texts: Vec<&str> = n.values.iter().map(|s| s.as_str()).collect();
    assert_eq!(texts, vec!["c1", "c2", "v1", "v2"]);
    assert_eq!(
        n.node,
        or(vec![
            and(vec![Node::Tag(0, 2), Node::Tag(1, 2)]),
            and(vec![Node::Tag(0, 3), Node::Tag(1, 3)]),
        ])
    );
}

#[test]
fn simple_tag() {
    assert_eq!(tree("a:b"), Node::Tag(0, 1));
    assert_eq!(tree("-a:b"), not(Node::Tag(0, 1)));
    assert_eq!(tree("a:b c"), and(vec![Node::Tag(0, 1), val(2)]));
}

#[test]
fn whole_query() {
    let q = "category:tag (category1 & category2):(tag1 | tag2 & tag3) word | -word2";
    let expected = or(vec![
        and(vec![
            Node::Tag(0, 1),
            or(vec![
                and(vec![Node::Tag(2, 4), Node::Tag(3, 4)]),
                and(vec![
                    and(vec![Node::Tag(2, 5), Node::Tag(3, 5)]),
                    and(vec![Node::Tag(2, 6), Node::Tag(3, 6)]),
                ]),
            ]),
            val(7),
        ]),
        not(val(8)),
    ]);
    assert_eq!(tree(q), expected);
}

#[test]
fn nested_tag_is_rejected() {
    assert_eq!(error("a:(b:c)"), ParseError::InvalidTagNesting);
    assert_eq!(error("a:b:c"), ParseError::InvalidTagNesting);
}

#[test]
fn unmatched_parenthesis() {
    assert_eq!(error("(a & b"), ParseError::UnmatchedParenthesis);
    assert_eq!(error("a & b)"), ParseError::UnmatchedParenthesis);
    assert_eq!(error(")("), ParseError::UnmatchedParenthesis);
}

#[test]
fn missing_operand() {
    assert_eq!(error("a &"), ParseError::MissingOperand);
    assert_eq!(error("| a"), ParseError::MissingOperand);
    assert_eq!(error("a -"), ParseError::MissingOperand);
    assert_eq!(error(":a"), ParseError::MissingOperand);
    assert_eq!(error("a & | b"), ParseError::MissingOperand);
}

#[test]
fn empty_input_is_empty_tree() {
    let n = parse("").unwrap();
    assert_eq!(n.node, Node::Empty);
    assert!(n.values.is_empty());
    assert_eq!(tree("   "), Node::Empty);
}

#[test]
fn empty_group_drops_out() {
    assert_eq!(tree("()"), Node::Empty);
    assert_eq!(tree("(())"), Node::Empty);
    assert_eq!(tree("a ()"), and(vec![val(0)]));
    assert_eq!(tree("a | ()"), or(vec![val(0)]));
    assert_eq!(tree("() ()"), Node::Empty);
    assert_eq!(tree("-()"), Node::Empty);
}

#[test]
fn empty_group_is_no_scoping_operand() {
    assert_eq!(error("():a"), ParseError::MissingOperand);
    assert_eq!(error("a:()"), ParseError::MissingOperand);
}

#[test]
fn groups_nest() {
    assert_eq!(tree("(a | b) c"), and(vec![or(vec![val(0), val(1)]), val(2)]));
    assert_eq!(tree("((a))"), val(0));
    assert_eq!(tree("-(a b)"), not(and(vec![val(0), val(1)])));
}

#[test]
fn tokens_render_with_spaces() {
    assert_eq!(Tokens::new("a&(b|-c):d").render(), "a & ( b | - c ) : d ");
    assert_eq!(Tokens::new("").render(), "");
    assert_eq!(Tokens::new("\"x y\"").render(), "x y ");
}

#[test]
fn tree_renders_for_reading() {
    assert_eq!(parse("a b | -c").unwrap().render(), " OR( AND( a ,  b ) ,  NOT( c ) ) ");
    assert_eq!(parse("x:y").unwrap().render(), " x:y ");
    assert_eq!(parse("").unwrap().render(), "");
}

#[test]
fn negations_on_both_sides_of_a_tag_cancel() {
    assert_eq!(tree("-a:-b"), Node::Tag(0, 1));
    assert_eq!(tree("a:-b"), not(Node::Tag(0, 1)));
    assert_eq!(tree("-a:b"), not(Node::Tag(0, 1)));
    assert_eq!(tree("-(a b):-c"), and(vec![Node::Tag(0, 2), Node::Tag(1, 2)]));
}
