use hoster::address::IpAddress;
use hoster::cst::{Cst, CstNode};
use hoster::parser::{Error, Parser, ParserBuilder};
use hoster::tokenizer::tokenize;
use hoster::tokens::Tokens;
use hoster::commands::{list, remove};
use smallvec::SmallVec;

fn ip(text: &str) -> CstNode {
    CstNode::IP(IpAddress::parse(text).unwrap())
}

fn host(text: &str) -> CstNode {
    CstNode::Host(text.to_string())
}

fn word(text: &str) -> Tokens {
    Tokens::HostOrIp(text.to_string())
}

fn parse(tokens: Vec<Tokens>) -> Result<Vec<CstNode>, Error> {
    let cst: Cst<1> = Parser::default().parse(tokens)?;
    let mut nodes = Vec::new();
    let mut tree = cst;
    while tree.len() > 0 {
        nodes.push(first_node(&mut tree));
    }
    Ok(nodes)
}

fn first_node(tree: &mut Cst<1>) -> CstNode {
    let node = match &tree.as_slice()[0] {
        CstNode::Host(text) => CstNode::Host(text.clone()),
        CstNode::IP(ip) => CstNode::IP(*ip),
        CstNode::Comment(text) => CstNode::Comment(text.clone()),
        CstNode::Space => CstNode::Space,
        CstNode::Tab => CstNode::Tab,
        CstNode::CarriageReturn => CstNode::CarriageReturn,
        CstNode::NewLine => CstNode::NewLine,
    };
    tree.remove_nodes(0..=0);
    node
}

#[test]
fn parser_test_parse_tokens() {
    let tokens = vec![
        Tokens::HostOrIp("127.0.0.1".to_string()),
        Tokens::Space,
        Tokens::HostOrIp("localhost".to_string()),
    ];

    let parser = Parser::default();
    let cst = parser.parse::<1>(tokens);
    assert!(cst.is_ok());
    let expected: SmallVec<[CstNode; 3]> = SmallVec::from_vec(vec![
        CstNode::IP(IpAddress::V4(127, 0, 0, 1)),
        CstNode::Space,
        CstNode::Host("localhost".to_string()),
    ]);
    assert_eq!(expected.as_slice(), cst.unwrap().as_slice());

    let tokens = vec![
        Tokens::Comment(" localhost name resolution is handled within DNS itself.".to_string()),
        Tokens::NewLine,
        Tokens::Comment(" Added by Docker Desktop".to_string()),
        Tokens::NewLine,
        Tokens::HostOrIp("192.168.0.17".to_string()),
        Tokens::Tab,
        Tokens::HostOrIp("host.docker.internal".to_string()),
        Tokens::NewLine,
        Tokens::HostOrIp("192.168.0.17".to_string()),
        Tokens::Space,
        Tokens::HostOrIp("gateway.docker.internal".to_string()),
        Tokens::NewLine,
        Tokens::Comment(
            " To allow the same kube context to work on the host and the container:".to_string(),
        ),
        Tokens::NewLine,
        Tokens::Tab,
        Tokens::HostOrIp("127.0.0.1".to_string()),
        Tokens::Tab,
        Tokens::HostOrIp("kubernetes.docker.internal".to_string()),
        Tokens::NewLine,
        Tokens::NewLine,
        Tokens::NewLine,
        Tokens::Comment(" End of section".to_string()),
        Tokens::NewLine,
    ];

    let parser = Parser::default();

    let cst = parser.parse::<1>(tokens);
    assert!(cst.is_ok());
    let expected: SmallVec<[CstNode; 23]> = SmallVec::from_vec(vec![
        CstNode::Comment(" localhost name resolution is handled within DNS itself.".to_string()),
        CstNode::NewLine,
        CstNode::Comment(" Added by Docker Desktop".to_string()),
        CstNode::NewLine,
        ip("192.168.0.17"),
        CstNode::Tab,
        CstNode::Host("host.docker.internal".to_string()),
        CstNode::NewLine,
        ip("192.168.0.17"),
        CstNode::Space,
        CstNode::Host("gateway.docker.internal".to_string()),
        CstNode::NewLine,
        CstNode::Comment(
            " To allow the same kube context to work on the host and the container:".to_string(),
        ),
        CstNode::NewLine,
        CstNode::Tab,
        ip("127.0.0.1"),
        CstNode::Tab,
        CstNode::Host("kubernetes.docker.internal".to_string()),
        CstNode::NewLine,
        CstNode::NewLine,
        CstNode::NewLine,
        CstNode::Comment(" End of section".to_string()),
        CstNode::NewLine,
    ]);
    assert_eq!(expected.as_slice(), cst.unwrap().as_slice());
}

#[test]
fn test_with_carriage_return() {
    let tokens = vec![
        Tokens::Comment(" Added by Docker Desktop".to_string()),
        Tokens::CarriageReturn,
        Tokens::NewLine,
        Tokens::HostOrIp("192.168.0.17".to_string()),
        Tokens::Space,
        Tokens::HostOrIp("host.docker.internal".to_string()),
        Tokens::CarriageReturn,
        Tokens::NewLine,
        Tokens::HostOrIp("192.168.0.17".to_string()),
        Tokens::Space,
        Tokens::HostOrIp("gateway.docker.internal".to_string()),
        Tokens::CarriageReturn,
        Tokens::NewLine,
        Tokens::Comment(
            " To allow the same kube context to work on the host and the container:".to_string(),
        ),
        Tokens::CarriageReturn,
        Tokens::NewLine,
        Tokens::HostOrIp("127.0.0.1".to_string()),
        Tokens::Space,
        Tokens::HostOrIp("kubernetes.docker.internal".to_string()),
        Tokens::CarriageReturn,
        Tokens::NewLine,
        Tokens::Comment(" End of section".to_string()),
        Tokens::CarriageReturn,
        Tokens::NewLine,
    ];

    let parser = Parser::default();

    let cst = parser.parse::<1>(tokens);
    assert!(cst.is_ok());

    let cst = cst.unwrap();

    let expected: SmallVec<[CstNode; 24]> = SmallVec::from_vec(vec![
        CstNode::Comment(" Added by Docker Desktop".to_string()),
        CstNode::CarriageReturn,
        CstNode::NewLine,
        ip("192.168.0.17"),
        CstNode::Space,
        CstNode::Host("host.docker.internal".to_string()),
        CstNode::CarriageReturn,
        CstNode::NewLine,
        ip("192.168.0.17"),
        CstNode::Space,
        CstNode::Host("gateway.docker.internal".to_string()),
        CstNode::CarriageReturn,
        CstNode::NewLine,
        CstNode::Comment(
            " To allow the same kube context to work on the host and the container:".to_string(),
        ),
        CstNode::CarriageReturn,
        CstNode::NewLine,
        ip("127.0.0.1"),
        CstNode::Space,
        CstNode::Host("kubernetes.docker.internal".to_string()),
        CstNode::CarriageReturn,
        CstNode::NewLine,
        CstNode::Comment(" End of section".to_string()),
        CstNode::CarriageReturn,
        CstNode::NewLine,
    ]);
    assert_eq!(expected.as_slice(), cst.as_slice());
}

#[test]
fn parser_test_multiple_hosts_on_the_same_line() {
    let tokens = vec![
        Tokens::HostOrIp("127.0.0.1".to_string()),
        Tokens::Tab,
        Tokens::HostOrIp("localhost".to_string()),
        Tokens::NewLine,
        Tokens::HostOrIp("127.0.1.1".to_string()),
        Tokens::Tab,
        Tokens::HostOrIp("hp".to_string()),
        Tokens::NewLine,
        Tokens::NewLine,
        Tokens::Comment(" The following lines are desirable for IPv6 capable hosts".to_string()),
        Tokens::NewLine,
        Tokens::HostOrIp("::1".to_string()),
        Tokens::Tab,
        Tokens::HostOrIp("ip6-localhost".to_string()),
        Tokens::Space,
        Tokens::HostOrIp("ip6-loopback".to_string()),
        Tokens::NewLine,
        Tokens::HostOrIp("fe00::0".to_string()),
        Tokens::Space,
        Tokens::HostOrIp("ip6-localnet".to_string()),
        Tokens::NewLine,
    ];

    let parser = Parser::default();

    let cst = parser.parse::<1>(tokens);
    assert!(cst.is_ok());

    let expected: SmallVec<[CstNode; 21]> = SmallVec::from_vec(vec![
        ip("127.0.0.1"),
        CstNode::Tab,
        CstNode::Host("localhost".to_string()),
        CstNode::NewLine,
        ip("127.0.1.1"),
        CstNode::Tab,
        CstNode::Host("hp".to_string()),
        CstNode::NewLine,
        CstNode::NewLine,
        CstNode::Comment(" The following lines are desirable for IPv6 capable hosts".to_string()),
        CstNode::NewLine,
        ip("::1"),
        CstNode::Tab,
        CstNode::Host("ip6-localhost".to_string()),
        CstNode::Space,
        CstNode::Host("ip6-loopback".to_string()),
        CstNode::NewLine,
        ip("fe00::0"),
        CstNode::Space,
        CstNode::Host("ip6-localnet".to_string()),
        CstNode::NewLine,
    ]);
    assert_eq!(expected.as_slice(), cst.unwrap().as_slice());
}

#[test]
fn test_multiple_hosts_on_the_same_line_with_carriage_return() {
    let tokens = vec![
        Tokens::HostOrIp("192.168.0.17".to_string()),
        Tokens::Tab,
        Tokens::HostOrIp("host.docker.internal".to_string()),
        Tokens::Tab,
        Tokens::HostOrIp("another.com".to_string()),
        Tokens::Space,
        Tokens::Comment(" Comment".to_string()),
        Tokens::NewLine,
    ];

    let parser = Parser::default();

    let cst = parser.parse::<10>(tokens);
    assert!(cst.is_ok());

    let cst = cst.unwrap();

    let expected: SmallVec<[CstNode; 8]> = SmallVec::from_vec(vec![
        ip("192.168.0.17"),
        CstNode::Tab,
        CstNode::Host("host.docker.internal".to_string()),
        CstNode::Tab,
        CstNode::Host("another.com".to_string()),
        CstNode::Space,
        CstNode::Comment(" Comment".to_string()),
        CstNode::NewLine,
    ]);
    assert_eq!(expected.as_slice(), cst.as_slice());
}

#[test]
fn the_first_word_of_a_line_is_its_address_and_the_others_are_aliases() {
    let nodes = parse(vec![word("127.0.0.1"), Tokens::Tab, word("a"), Tokens::Space, word("b")]);
    assert_eq!(
        nodes.unwrap(),
        vec![ip("127.0.0.1"), CstNode::Tab, host("a"), CstNode::Space, host("b")]
    );
    // A word that reads as an address is an alias all the same.
    let nodes = parse(vec![word("::1"), Tokens::Space, word("10.0.0.1"), Tokens::NewLine]);
    assert_eq!(
        nodes.unwrap(),
        vec![ip("::1"), CstNode::Space, host("10.0.0.1"), CstNode::NewLine]
    );
}

#[test]
fn a_word_in_the_place_of_the_address_has_to_be_one() {
    match parse(vec![word("localhost"), Tokens::Space, word("127.0.0.1")]) {
        Err(Error::InvalidIp(text)) => assert_eq!(text, "localhost"),
        _ => panic!("localhost is no address"),
    }
    match parse(vec![Tokens::Tab, word("1.2.3")]) {
        Err(Error::InvalidIp(text)) => assert_eq!(text, "1.2.3"),
        _ => panic!("1.2.3 is no address"),
    }
    match parse(vec![Tokens::NewLine, word("x")]) {
        Err(Error::InvalidIp(text)) => assert_eq!(text, "x"),
        _ => panic!("x is no address"),
    }
    match parse(vec![word("1.1.1.1"), Tokens::NewLine, word("b"), Tokens::Space]) {
        Err(Error::InvalidIp(text)) => assert_eq!(text, "b"),
        _ => panic!("b is no address"),
    }
}

#[test]
fn a_comment_has_to_end_its_line() {
    match parse(vec![Tokens::Comment("c".to_string()), word("1.1.1.1")]) {
        Err(Error::UnexpectedToken(node)) => assert_eq!(node, CstNode::Comment("c".to_string())),
        _ => panic!("a word stands behind the comment"),
    }
    match parse(vec![Tokens::Comment("c".to_string()), Tokens::Space]) {
        Err(Error::UnexpectedToken(node)) => assert_eq!(node, CstNode::Comment("c".to_string())),
        _ => panic!("a space stands behind the comment"),
    }
    assert_eq!(
        parse(vec![Tokens::Comment("c".to_string())]).unwrap(),
        vec![CstNode::Comment("c".to_string())]
    );
    assert_eq!(
        parse(vec![Tokens::Comment("c".to_string()), Tokens::CarriageReturn, Tokens::NewLine])
            .unwrap(),
        vec![CstNode::Comment("c".to_string()), CstNode::CarriageReturn, CstNode::NewLine]
    );
    assert_eq!(
        parse(vec![Tokens::Comment("c".to_string()), Tokens::NewLine]).unwrap(),
        vec![CstNode::Comment("c".to_string()), CstNode::NewLine]
    );
}

#[test]
fn a_carriage_return_has_to_stand_before_a_line_end() {
    match parse(vec![Tokens::CarriageReturn, Tokens::Space]) {
        Err(Error::UnexpectedToken(node)) => assert_eq!(node, CstNode::Space),
        _ => panic!("a space stands behind the carriage return"),
    }
    match parse(vec![Tokens::CarriageReturn, word("x")]) {
        Err(Error::UnexpectedToken(node)) => assert_eq!(node, host("x")),
        _ => panic!("a word stands behind the carriage return"),
    }
    match parse(vec![Tokens::CarriageReturn]) {
        Err(Error::UnexpectedToken(node)) => assert_eq!(node, CstNode::NewLine),
        _ => panic!("nothing stands behind the carriage return"),
    }
    match parse(vec![word("1.1.1.1"), Tokens::Space, Tokens::CarriageReturn, Tokens::CarriageReturn]) {
        Err(Error::UnexpectedToken(node)) => assert_eq!(node, CstNode::CarriageReturn),
        _ => panic!("a carriage return stands behind the carriage return"),
    }
    assert_eq!(
        parse(vec![Tokens::CarriageReturn, Tokens::NewLine]).unwrap(),
        vec![CstNode::CarriageReturn, CstNode::NewLine]
    );
}

#[test]
fn a_comment_is_checked_wherever_it_stands() {
    match parse(vec![Tokens::NewLine, Tokens::Comment("c".to_string()), word("127.0.0.1")]) {
        Err(Error::UnexpectedToken(node)) => assert_eq!(node, CstNode::Comment("c".to_string())),
        _ => panic!("a word stands behind the comment"),
    }
    match parse(vec![word("1.1.1.1"), Tokens::Space, Tokens::Comment("c".to_string()), Tokens::Tab]) {
        Err(Error::UnexpectedToken(node)) => assert_eq!(node, CstNode::Comment("c".to_string())),
        _ => panic!("a tab stands behind the comment"),
    }
    match parse(vec![Tokens::Comment("a".to_string()), Tokens::Comment("b".to_string())]) {
        Err(Error::UnexpectedToken(node)) => assert_eq!(node, CstNode::Comment("a".to_string())),
        _ => panic!("a comment stands behind the comment"),
    }
}

#[test]
fn a_carriage_return_is_checked_wherever_it_stands() {
    match parse(vec![word("127.0.0.1"), Tokens::CarriageReturn]) {
        Err(Error::UnexpectedToken(node)) => assert_eq!(node, CstNode::NewLine),
        _ => panic!("nothing stands behind the carriage return"),
    }
    match parse(vec![word("1.1.1.1"), Tokens::CarriageReturn, word("x")]) {
        Err(Error::UnexpectedToken(node)) => assert_eq!(node, host("x")),
        _ => panic!("a word stands behind the carriage return"),
    }
    match parse(vec![Tokens::Comment("c".to_string()), Tokens::CarriageReturn]) {
        Err(Error::UnexpectedToken(node)) => assert_eq!(node, CstNode::NewLine),
        _ => panic!("nothing stands behind the carriage return"),
    }
    match parse(vec![Tokens::CarriageReturn, Tokens::Comment("c".to_string()), Tokens::NewLine]) {
        Err(Error::UnexpectedToken(node)) => assert_eq!(node, CstNode::Comment("c".to_string())),
        _ => panic!("a comment stands behind the carriage return"),
    }
}

#[test]
fn the_first_error_is_the_error() {
    // The word is read before the comment behind it.
    match parse(vec![word("x"), Tokens::Comment("c".to_string()), Tokens::Space]) {
        Err(Error::InvalidIp(text)) => assert_eq!(text, "x"),
        _ => panic!("x is no address"),
    }
    // The comment is read before the word behind it.
    match parse(vec![Tokens::Comment("c".to_string()), word("x")]) {
        Err(Error::UnexpectedToken(node)) => assert_eq!(node, CstNode::Comment("c".to_string())),
        _ => panic!("a word stands behind the comment"),
    }
}

#[test]
fn every_token_gives_a_node() {
    assert_eq!(
        parse(vec![Tokens::Space, Tokens::Space, Tokens::Tab, Tokens::NewLine, Tokens::Tab, Tokens::Tab])
            .unwrap(),
        vec![
            CstNode::Space,
            CstNode::Space,
            CstNode::Tab,
            CstNode::NewLine,
            CstNode::Tab,
            CstNode::Tab
        ]
    );
    assert_eq!(
        parse(vec![Tokens::Space, Tokens::Comment("c".to_string()), Tokens::NewLine]).unwrap(),
        vec![CstNode::Space, CstNode::Comment("c".to_string()), CstNode::NewLine]
    );
    assert_eq!(
        parse(vec![word("1.1.1.1"), word("2.2.2.2")]).unwrap(),
        vec![ip("1.1.1.1"), host("2.2.2.2")]
    );
    assert_eq!(
        parse(vec![Tokens::Tab, word("::1"), Tokens::Space, word("a"), Tokens::Space]).unwrap(),
        vec![CstNode::Tab, ip("::1"), CstNode::Space, host("a"), CstNode::Space]
    );
    assert_eq!(parse(vec![Tokens::Space]).unwrap(), vec![CstNode::Space]);
    assert_eq!(parse(vec![]).unwrap(), vec![]);
    let tokens = tokenize(b"  1.1.1.1\t \ta  b #c\r\n\n \n::1 x\n").unwrap();
    let count = tokens.len();
    assert_eq!(parse(tokens).unwrap().len(), count);
}

#[test]
fn every_line_end_starts_a_line() {
    // The line end stands behind a word, behind a space, and behind a
    // comment.
    let text = " 1.1.1.1 a\n 2.2.2.2 b\n";
    assert_eq!(
        parse(tokenize(text.as_bytes()).unwrap()).unwrap(),
        vec![
            CstNode::Space,
            ip("1.1.1.1"),
            CstNode::Space,
            host("a"),
            CstNode::NewLine,
            CstNode::Space,
            ip("2.2.2.2"),
            CstNode::Space,
            host("b"),
            CstNode::NewLine,
        ]
    );
    let text = "1.1.1.1 a \n2.2.2.2\n";
    assert_eq!(
        parse(tokenize(text.as_bytes()).unwrap()).unwrap(),
        vec![
            ip("1.1.1.1"),
            CstNode::Space,
            host("a"),
            CstNode::Space,
            CstNode::NewLine,
            ip("2.2.2.2"),
            CstNode::NewLine,
        ]
    );
    let text = "1.1.1.1 a  \n2.2.2.2 b\n";
    assert_eq!(
        parse(tokenize(text.as_bytes()).unwrap()).unwrap(),
        vec![
            ip("1.1.1.1"),
            CstNode::Space,
            host("a"),
            CstNode::Space,
            CstNode::Space,
            CstNode::NewLine,
            ip("2.2.2.2"),
            CstNode::Space,
            host("b"),
            CstNode::NewLine,
        ]
    );
    let text = "1.1.1.1 a #c\n2.2.2.2 b";
    assert_eq!(
        parse(tokenize(text.as_bytes()).unwrap()).unwrap(),
        vec![
            ip("1.1.1.1"),
            CstNode::Space,
            host("a"),
            CstNode::Space,
            CstNode::Comment("c".to_string()),
            CstNode::NewLine,
            ip("2.2.2.2"),
            CstNode::Space,
            host("b"),
        ]
    );
}

#[test]
fn a_visitor_sees_every_node_in_order() {
    let tokens = vec![word("1.1.1.1"), Tokens::Space, word("a"), Tokens::NewLine];
    let mut parser = Parser::builder().visitor(list::Visitor::new()).build();
    let cst = parser.parse::<4>(tokens).unwrap();
    parser.visit(&cst);
    // A second walk starts at the first node again.
    parser.visit(&cst);
    assert_eq!(parser.visitor.unwrap().into_output(), "1.1.1.1\ta\n1.1.1.1\ta\n");
}

#[test]
fn a_walk_ends_where_the_visitor_ends_it() {
    let tokens = tokenize(b"1.1.1.1 a\n2.2.2.2 a b\n").unwrap();
    let mut parser = ParserBuilder::default().visitor(remove::Visitor::new("a")).build();
    let cst = parser.parse::<4>(tokens).unwrap();
    parser.visit(&cst);
    // The walk ended at the first line end; had it gone on, the second
    // line would have been measured.
    let visitor = parser.get_visitor().unwrap();
    assert!(visitor.has_found());
    assert_eq!(visitor.get_start(), Some(0));
    assert_eq!(visitor.get_end(), Some(3));
}

#[test]
fn a_parser_without_a_visitor_walks_nothing() {
    let mut parser: Parser<list::Visitor> = Parser::builder().build();
    let cst = parser.parse::<4>(vec![Tokens::NewLine]).unwrap();
    parser.visit(&cst);
    assert!(parser.get_visitor().is_none());
    assert!(Parser::default().visitor.is_none());
}

#[test]
fn errors_have_a_message() {
    assert_eq!(Error::InvalidIp("x".to_string()).to_string(), "Invalid ip x");
    assert_eq!(Error::UnexpectedToken(CstNode::Comment("c".to_string())).to_string(), "unexpected token #c");
    assert_eq!(Error::ExpectingToken(CstNode::NewLine).to_string(), "Expecting token: \n");
}
