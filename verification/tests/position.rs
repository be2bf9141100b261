use leap_lang::handle::Handle;
use leap_lang::parser::itemposition::ItemPosition;
use leap_lang::parser::parsetree::ParseTree;
use leap_lang::parser::position::Position;
use leap_lang::parser::treevariant::TreeVariant;

#[test]
fn test_position() {
    let p = Position::new(3, 4);
    assert_eq!(p.start, 3);
    assert_eq!(p.length, 4);
    assert_eq!(p.end(), 7);
    // the span grows to the later end and stays where it starts
    assert_eq!(p.extend(&Position::new(8, 2)), Position::new(3, 7));
    assert_eq!(p.extend(&Position::new(4, 1)), Position::new(3, 4));
    assert_eq!(p.extend(&Position::new(0, 3)), Position::new(3, 4));
    assert_eq!(p.extend(&Position::new(0, 9)), Position::new(3, 6));
}

#[test]
fn test_item_position() {
    let item = ItemPosition::new(1, 2, "a".to_owned());
    assert_eq!(item, ItemPosition(Position::new(1, 2), "a".to_owned()));
    assert_eq!(item.replace(7usize), ItemPosition(Position::new(1, 2), 7usize));
}

#[test]
fn test_handle() {
    let h: Handle<u8> = Handle::new(7);
    assert_eq!(h.as_index(), 7);
    let copy = h;
    assert!(copy == h);
    assert!(h != Handle::new(8));
    assert!(h.clone() == h);
}

fn leaf(start: usize, length: usize) -> ParseTree {
    ParseTree::new(TreeVariant::TArgs, Position::new(start, length))
}

fn covered(tree: &ParseTree) -> bool {
    tree.nodes.iter().all(|n| within(n, &tree.position) && covered(n))
}

fn within(tree: &ParseTree, span: &Position) -> bool {
    span.start <= tree.position.start
        && tree.position.end() <= span.end()
        && tree.nodes.iter().all(|n| within(n, span))
}

#[test]
fn test_calc_length() {
    let mut tree = ParseTree::new(TreeVariant::Start, Position::new(2, 3));
    assert!(tree.nodes.is_empty());
    let mut first = leaf(2, 3);
    first.nodes.push(leaf(6, 1));
    let mut last = leaf(8, 1);
    let mut inner = leaf(9, 2);
    inner.nodes.push(leaf(12, 5));
    last.nodes.push(leaf(8, 1));
    last.nodes.push(inner);
    tree.nodes.push(first);
    tree.nodes.push(last);
    tree.calc_length();
    assert_eq!(tree.position, Position::new(2, 15));
    assert_eq!(tree.nodes[0].position, Position::new(2, 5));
    assert_eq!(tree.nodes[1].position, Position::new(8, 9));
    assert_eq!(tree.nodes[1].nodes[1].position, Position::new(9, 8));
    assert_eq!(tree.nodes[1].nodes[1].nodes[0].position, Position::new(12, 5));
    assert!(covered(&tree));
}
