use modal_editor::layout::{Anchors, Constraints, Dimension, Direction, Position, Rect};
use modal_editor::nodes::{Component, Dummy, Nodes};
use modal_editor::tree::{LeafIdx, NodeIdx, Side, SplitIdx};
use modal_editor::views::{ViewIdx, Views};

fn sides(r: &Rect) -> (u16, u16, u16, u16) {
    (r.x, r.y, r.w, r.h)
}

fn show(n: usize) -> Component {
    Component::View(ViewIdx(n))
}

fn tree() -> (Nodes, SplitIdx) {
    let mut nodes = Nodes::new();
    let root = nodes.new_root(Constraints::new(), Anchors::new(), 80, 24, Direction::Vertical);
    (nodes, root)
}

fn plain_leaf(nodes: &mut Nodes, parent: SplitIdx, n: usize) -> LeafIdx {
    nodes.new_leaf(show(n), parent, Constraints::new(), Anchors::new())
}

#[test]
fn a_root_takes_what_its_constraints_allow() {
    let mut nodes = Nodes::new();
    let c = Constraints {
        min_height: None,
        max_height: Some(vec![Dimension::AddRelative(1), Dimension::SubAbsolute(1)]),
        min_width: None,
        max_width: Some(vec![Dimension::AddAbsolute(100)]),
    };
    let root = nodes.new_root(c, Anchors::new(), 80, 24, Direction::Horizontal);
    assert_eq!(sides(&nodes.get_split(root).rect), (0, 0, 80, 23));
    assert_eq!(nodes.root_count(), 1);
    assert!(nodes.get_root(0) == root);
}

#[test]
fn leaves_share_the_root() {
    let (mut nodes, root) = tree();
    let a = plain_leaf(&mut nodes, root, 0);
    assert_eq!(sides(&nodes.get_leaf(a).rect), (0, 0, 80, 24));
    let b = plain_leaf(&mut nodes, root, 1);
    assert_eq!(sides(&nodes.get_leaf(a).rect), (0, 0, 40, 24));
    assert_eq!(sides(&nodes.get_leaf(b).rect), (40, 0, 40, 24));
}

#[test]
fn a_split_divides_what_it_gets() {
    let (mut nodes, root) = tree();
    let a = plain_leaf(&mut nodes, root, 0);
    let (b, s) = nodes.new_split(
        show(1),
        root,
        Direction::Horizontal,
        Constraints::new(),
        Anchors::new(),
    );
    let c = plain_leaf(&mut nodes, s, 2);
    assert_eq!(sides(&nodes.get_leaf(a).rect), (0, 0, 40, 24));
    assert_eq!(sides(&nodes.get_split(s).rect), (40, 0, 40, 24));
    assert_eq!(sides(&nodes.get_leaf(b).rect), (40, 0, 40, 12));
    assert_eq!(sides(&nodes.get_leaf(c).rect), (40, 12, 40, 12));
    assert!(nodes.get_leaf(c).parent == s);
    assert!(nodes.get_split(s).parent == Some(root));
    assert!(nodes.position(s, NodeIdx::Leaf(c)) == Some(1));
    assert!(nodes.position(root, NodeIdx::Leaf(c)).is_none());
}

#[test]
fn the_focus_moves_between_neighbours() {
    let (mut nodes, root) = tree();
    let a = plain_leaf(&mut nodes, root, 0);
    let (b, s) = nodes.new_split(
        show(1),
        root,
        Direction::Horizontal,
        Constraints::new(),
        Anchors::new(),
    );
    let c = plain_leaf(&mut nodes, s, 2);
    let mut focus = a;
    nodes.focus_left(&mut focus);
    assert!(focus == a);
    nodes.focus_right(&mut focus);
    assert!(focus == b);
    nodes.focus_down(&mut focus);
    assert!(focus == c);
    nodes.focus_down(&mut focus);
    assert!(focus == c);
    nodes.focus_left(&mut focus);
    assert!(focus == a);
    nodes.focus_right(&mut focus);
    assert!(focus == c);
    nodes.focus_up(&mut focus);
    assert!(focus == b);
    assert!(nodes.follow_focus(NodeIdx::Split(root)) == b);
}

#[test]
fn what_a_leaf_leaves_goes_to_its_neighbours() {
    let (mut nodes, root) = tree();
    let mut views = Views::new();
    let a = plain_leaf(&mut nodes, root, 0);
    let b = plain_leaf(&mut nodes, root, 1);
    let mut focus = b;
    nodes.remove_child(root, &mut views, &mut focus, NodeIdx::Leaf(b));
    assert!(focus == a);
    assert_eq!(sides(&nodes.get_leaf(a).rect), (0, 0, 80, 24));
    assert_eq!(views.0.len(), 0);
    assert!(plain_leaf(&mut nodes, root, 2) == b);
}

#[test]
fn an_empty_split_goes_with_its_last_leaf() {
    let (mut nodes, root) = tree();
    let mut views = Views::new();
    let a = plain_leaf(&mut nodes, root, 0);
    let (b, s) = nodes.new_split(
        show(1),
        root,
        Direction::Horizontal,
        Constraints::new(),
        Anchors::new(),
    );
    let mut focus = b;
    nodes.remove_child(s, &mut views, &mut focus, NodeIdx::Leaf(b));
    assert!(nodes.get_split(root).children == vec![NodeIdx::Leaf(a)]);
    assert!(focus == a);
    assert_eq!(sides(&nodes.get_leaf(a).rect), (0, 0, 80, 24));
    let (_, t) = nodes.new_split(
        show(1),
        root,
        Direction::Horizontal,
        Constraints::new(),
        Anchors::new(),
    );
    assert!(t == s);
}

#[test]
fn the_first_root_is_never_empty() {
    let (mut nodes, root) = tree();
    let mut views = Views::new();
    let a = plain_leaf(&mut nodes, root, 0);
    let mut focus = a;
    nodes.remove_child(root, &mut views, &mut focus, NodeIdx::Leaf(a));
    assert_eq!(views.0.len(), 1);
    assert_eq!(views.0[0].buf.idx, 0);
    assert_eq!(nodes.get_split(root).children.len(), 1);
    assert!(focus != a);
    assert!(matches!(nodes.get_leaf(focus).comp, Component::View(ViewIdx(0))));
    assert_eq!(sides(&nodes.get_leaf(focus).rect), (0, 0, 80, 24));
}

#[test]
fn a_screen_of_another_size_is_laid_out_again() {
    let (mut nodes, root) = tree();
    let other = nodes.new_root(Constraints::new(), Anchors::new(), 80, 24, Direction::Horizontal);
    let a = plain_leaf(&mut nodes, root, 0);
    let b = plain_leaf(&mut nodes, root, 1);
    let c = nodes.new_leaf(
        Component::CmdLine(Dummy()),
        other,
        Constraints::new(),
        Anchors::new(),
    );
    nodes.recalc_including_root(100, 50);
    assert_eq!(sides(&nodes.get_split(root).rect), (0, 0, 100, 50));
    assert_eq!(sides(&nodes.get_leaf(a).rect), (0, 0, 50, 50));
    assert_eq!(sides(&nodes.get_leaf(b).rect), (50, 0, 50, 50));
    assert_eq!(sides(&nodes.get_leaf(c).rect), (0, 0, 100, 50));
}

#[test]
fn laying_out_again_changes_nothing() {
    let (mut nodes, root) = tree();
    let a = plain_leaf(&mut nodes, root, 0);
    let b = plain_leaf(&mut nodes, root, 1);
    let before = (sides(&nodes.get_leaf(a).rect), sides(&nodes.get_leaf(b).rect));
    nodes.recalc(root);
    assert_eq!(before, (sides(&nodes.get_leaf(a).rect), sides(&nodes.get_leaf(b).rect)));
    let twin = nodes.copy();
    assert_eq!(twin.leaf_count(), 2);
    assert_eq!(sides(&twin.get_leaf(b).rect), before.1);
    assert!(nodes.may_refocus(a, Side::Right) && nodes.may_refocus(b, Side::Left));
    assert!(nodes.is_in_use(root) && !nodes.is_in_use(SplitIdx(9)));
}

#[test]
fn the_leaves_are_listed_with_the_focus_last() {
    let (mut nodes, root) = tree();
    let a = plain_leaf(&mut nodes, root, 0);
    let b = plain_leaf(&mut nodes, root, 1);
    let c = plain_leaf(&mut nodes, root, 2);
    nodes.get_mut_split(root).focus = 1;
    assert!(nodes.leaves_in_order() == vec![a, c, b]);
}

#[test]
fn an_anchor_counts_from_the_parent() {
    for direction in [Direction::Vertical, Direction::Horizontal] {
        let mut nodes = Nodes::new();
        let root = nodes.new_root(Constraints::new(), Anchors::new(), 80, 24, direction);
        let right = Anchors { x: Some(vec![Position::AddAbsolute(1)]), y: None };
        let a = nodes.new_leaf(show(0), root, Constraints::new(), right);
        nodes.recalc(root);
        assert_eq!(sides(&nodes.get_leaf(a).rect), (1, 0, 80, 24));
        let low = Anchors {
            x: None,
            y: Some(vec![Position::AddRelative(1), Position::SubAbsolute(8)]),
        };
        let b = nodes.new_leaf(show(1), root, Constraints::new(), low);
        assert_eq!((nodes.get_leaf(b).rect.x, nodes.get_leaf(b).rect.y), (0, 16));
        assert_eq!((nodes.get_leaf(a).rect.x, nodes.get_leaf(a).rect.y), (1, 0));
    }
}

#[test]
fn an_earlier_layout_leaves_no_trace() {
    let (mut nodes, root) = tree();
    let a = plain_leaf(&mut nodes, root, 0);
    let (b, s) = nodes.new_split(
        show(1),
        root,
        Direction::Horizontal,
        Constraints::new(),
        Anchors::new(),
    );
    let c = plain_leaf(&mut nodes, s, 2);
    let all = |nodes: &Nodes| {
        let mut found: Vec<_> = Vec::new();
        for l in [a, b, c] {
            found.push(sides(&nodes.get_leaf(l).rect));
        }
        for s in [root, s] {
            found.push(sides(&nodes.get_split(s).rect));
        }
        found
    };
    nodes.recalc(root);
    let once = all(&nodes);
    nodes.recalc(root);
    assert_eq!(all(&nodes), once);
    nodes.recalc(s);
    assert_eq!(all(&nodes), once);
    nodes.recalc_including_root(33, 7);
    assert!(all(&nodes) != once);
    nodes.recalc_including_root(80, 24);
    assert_eq!(all(&nodes), once);
}

#[test]
fn the_focus_goes_there_and_back() {
    let (mut nodes, root) = tree();
    let a = plain_leaf(&mut nodes, root, 0);
    let b = plain_leaf(&mut nodes, root, 1);
    let mut focus = a;
    assert_eq!(nodes.get_split(root).focus, 0);
    nodes.focus_right(&mut focus);
    assert!(focus == b);
    assert_eq!(nodes.get_split(root).focus, 1);
    nodes.focus_left(&mut focus);
    assert!(focus == a);
    assert_eq!(nodes.get_split(root).focus, 0);
}
