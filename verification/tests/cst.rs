use hoster::address::IpAddress;
use hoster::cst::{Cst, CstNode};
use hoster::tokens::Tokens;
use smallvec::SmallVec;

fn ip(text: &str) -> CstNode {
    CstNode::IP(IpAddress::parse(text).unwrap())
}

fn docker_nodes() -> Vec<CstNode> {
    vec![
        CstNode::Comment(" localhost name resolution is handled within DNS itself.".to_string()),
        CstNode::NewLine,
        CstNode::Comment(" Added by Docker Desktop".to_string()),
        CstNode::NewLine,
        ip("192.168.0.17"),
        CstNode::Tab,
        CstNode::Host("host.docker.internal".to_string()),
        CstNode::NewLine,
        ip("192.168.0.17"),
        CstNode::Space,
        CstNode::Host("gateway.docker.internal".to_string()),
        CstNode::NewLine,
        CstNode::Comment(
            " To allow the same kube context to work on the host and the container:".to_string(),
        ),
        CstNode::NewLine,
        CstNode::Tab,
        ip("127.0.0.1"),
        CstNode::Tab,
        CstNode::Host("kubernetes.docker.internal".to_string()),
        CstNode::NewLine,
        CstNode::NewLine,
        CstNode::NewLine,
        CstNode::Comment(" End of section".to_string()),
        CstNode::NewLine,
    ]
}

const DOCKER_TEXT: &str = "\
# localhost name resolution is handled within DNS itself.
# Added by Docker Desktop
192.168.0.17\thost.docker.internal
192.168.0.17 gateway.docker.internal
# To allow the same kube context to work on the host and the container:
\t127.0.0.1\tkubernetes.docker.internal


# End of section
";

#[test]
fn cst_test_to_string() {
    let expected = DOCKER_TEXT;

    let mut cst = Cst::<1>::new();
    cst.add_nodes(docker_nodes());

    assert_eq!(expected, cst.to_string());
}

#[test]
fn parser_test_to_string() {
    let expected = DOCKER_TEXT;

    let mut cst = Cst::<32>::new();
    for node in docker_nodes() {
        cst.add_node(node);
    }

    assert_eq!(expected, cst.to_string());
}

fn markers() -> Cst<2> {
    let mut cst = Cst::<2>::new();
    cst.add_nodes(vec![
        CstNode::Space,
        CstNode::Tab,
        CstNode::CarriageReturn,
        CstNode::NewLine,
        CstNode::Host("a".to_string()),
    ]);
    cst
}

#[test]
fn a_new_tree_is_empty() {
    let cst = Cst::<0>::new();
    assert_eq!(cst.len(), 0);
    assert_eq!(cst.to_string(), "");
    assert!(cst.as_slice().is_empty());
    let cst = Cst::<1000>::new();
    assert_eq!(cst.len(), 0);
}

#[test]
fn nodes_are_added_at_the_end() {
    let mut cst = markers();
    assert_eq!(cst.len(), 5);
    cst.add_node(CstNode::Comment("c".to_string()));
    cst.add_nodes(vec![CstNode::NewLine, ip("::1")]);
    cst.add_nodes(vec![]);
    let expected: SmallVec<[CstNode; 8]> = SmallVec::from_vec(vec![
        CstNode::Space,
        CstNode::Tab,
        CstNode::CarriageReturn,
        CstNode::NewLine,
        CstNode::Host("a".to_string()),
        CstNode::Comment("c".to_string()),
        CstNode::NewLine,
        ip("::1"),
    ]);
    assert_eq!(cst.as_slice(), expected.as_slice());
    assert_eq!(cst.len(), 8);
    assert_eq!(cst.to_string(), " \t\r\na#c\n::1");
}

#[test]
fn a_tree_grows_beyond_what_fits_inline() {
    let mut cst = Cst::<1>::new();
    for i in 0..100u8 {
        cst.add_node(CstNode::IP(IpAddress::V4(i, 0, 0, 0)));
    }
    assert_eq!(cst.len(), 100);
    for i in 0..100usize {
        assert_eq!(cst.as_slice()[i], CstNode::IP(IpAddress::V4(i as u8, 0, 0, 0)));
    }
}

#[test]
fn a_range_of_nodes_is_removed_and_the_rest_moves_up() {
    let mut cst = markers();
    cst.remove_nodes(1..=2);
    assert_eq!(cst.as_slice(), &[CstNode::Space, CstNode::NewLine, CstNode::Host("a".to_string())]);

    let mut cst = markers();
    cst.remove_nodes(0..=0);
    assert_eq!(cst.len(), 4);
    assert_eq!(cst.as_slice()[0], CstNode::Tab);

    let mut cst = markers();
    cst.remove_nodes(4..=4);
    assert_eq!(cst.as_slice(), &[CstNode::Space, CstNode::Tab, CstNode::CarriageReturn, CstNode::NewLine]);

    let mut cst = markers();
    cst.remove_nodes(0..=4);
    assert_eq!(cst.len(), 0);

    // A range may also name the place behind its last.
    let mut cst = markers();
    cst.remove_nodes(1..3);
    assert_eq!(cst.as_slice(), &[CstNode::Space, CstNode::NewLine, CstNode::Host("a".to_string())]);
    let mut cst = markers();
    cst.remove_nodes(2..2);
    assert_eq!(cst.len(), 5);
    let mut cst = markers();
    cst.remove_nodes(0..5);
    assert_eq!(cst.len(), 0);

    // A range that starts right behind its end is empty.
    let mut cst = markers();
    cst.remove_nodes(3..=2);
    assert_eq!(cst.len(), 5);
}

#[test]
fn a_node_writes_its_text() {
    assert_eq!(CstNode::Host("a.b".to_string()).to_string(), "a.b");
    assert_eq!(CstNode::IP(IpAddress::V4(10, 0, 0, 1)).to_string(), "10.0.0.1");
    assert_eq!(ip("fe00::0").to_string(), "fe00::");
    assert_eq!(CstNode::Comment(" c".to_string()).to_string(), "# c");
    assert_eq!(CstNode::Space.to_string(), " ");
    assert_eq!(CstNode::Tab.to_string(), "\t");
    assert_eq!(CstNode::CarriageReturn.to_string(), "\r");
    assert_eq!(CstNode::NewLine.to_string(), "\n");
    let mut out = String::from("x");
    CstNode::Comment("c".to_string()).write_to(&mut out);
    CstNode::NewLine.write_to(&mut out);
    assert_eq!(out, "x#c\n");
}

#[test]
fn a_token_has_a_node_that_stands_for_it() {
    assert_eq!(CstNode::from(Tokens::Comment("c".to_string())), CstNode::Comment("c".to_string()));
    assert_eq!(CstNode::from(Tokens::Space), CstNode::Space);
    assert_eq!(CstNode::from(Tokens::Tab), CstNode::Tab);
    assert_eq!(CstNode::from(Tokens::CarriageReturn), CstNode::CarriageReturn);
    assert_eq!(CstNode::from(Tokens::NewLine), CstNode::NewLine);
    assert_eq!(CstNode::from(Tokens::HostOrIp("x".to_string())), CstNode::Host("x".to_string()));
}
