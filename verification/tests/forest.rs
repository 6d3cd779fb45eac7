use amd::amd::EMPTY;
use amd::post_tree::post_tree;
use amd::postorder::{check_postorder_input, postorder};

#[test]
fn post_tree_numbers_children_before_parents() {
    // 0 has children 1, 2 (in that order); 1 has child 3
    let nn = 10;
    let mut child = vec![EMPTY; 10];
    let mut sibling = vec![EMPTY; 10];
    child[0] = 1;
    sibling[1] = 2;
    child[1] = 3;
    let mut order = vec![-7; 10];
    let mut stack = vec![0; 10];
    let k = post_tree(0, 5, &mut child, &sibling, &mut order, &mut stack, nn);
    assert_eq!(k, 9);
    assert_eq!(&order[0..4], &[8, 6, 7, 5]);
    assert!(order[4..].iter().all(|&x| x == -7));
    assert_eq!(child, vec![EMPTY; 10]);
}

#[test]
fn post_tree_on_a_single_node() {
    let mut child = vec![EMPTY; 3];
    let sibling = vec![EMPTY; 3];
    let mut order = vec![EMPTY; 3];
    let mut stack = vec![0; 3];
    let k = post_tree(2, 0, &mut child, &sibling, &mut order, &mut stack, 3);
    assert_eq!(k, 1);
    assert_eq!(order, vec![EMPTY, EMPTY, 0]);
}

fn forest() -> (Vec<i32>, Vec<i32>, Vec<i32>) {
    // roots 2 and 4; 0, 1, 3 are children of 2, 5 of 4; 6 and 7 form a cycle
    let parent = vec![2, 2, EMPTY, 2, EMPTY, 4, 7, 6];
    let nv = vec![1, 1, 1, 1, 1, 1, 1, 1];
    let f_size = vec![5, 9, 3, 4, 2, 1, 1, 1];
    (parent, nv, f_size)
}

#[test]
fn postorder_puts_the_biggest_child_last() {
    let (parent, nv, f_size) = forest();
    assert!(check_postorder_input(8, &parent, &nv, &f_size));
    let mut order = vec![0; 8];
    let mut child = vec![0; 8];
    let mut sibling = vec![0; 8];
    let mut stack = vec![0; 8];
    postorder(8, &parent, &nv, &f_size, &mut order, &mut child, &mut sibling, &mut stack);
    // postorder: 0, 3, 1, 2, 5, 4; the cycle 6-7 is not reached from a root
    assert_eq!(order, vec![0, 2, 3, 1, 5, 4, EMPTY, EMPTY]);
}

#[test]
fn postorder_orders_each_child_before_its_parent() {
    let (parent, nv, f_size) = forest();
    let mut order = vec![0; 8];
    let mut child = vec![0; 8];
    let mut sibling = vec![0; 8];
    let mut stack = vec![0; 8];
    postorder(8, &parent, &nv, &f_size, &mut order, &mut child, &mut sibling, &mut stack);
    for x in 0..8 {
        if order[x] != EMPTY && parent[x] != EMPTY {
            assert!(order[x] < order[parent[x] as usize]);
        }
    }
    // each listed node's subtree is the stretch just before it
    assert_eq!(order[2] - order[0], 3);
    assert_eq!(order[4] - order[5], 1);
}

#[test]
fn postorder_keeps_the_last_of_equal_children_last() {
    // 0 has children 1, 2, 3 of equal size: 3 stays last
    let parent = vec![EMPTY, 0, 0, 0];
    let nv = vec![2, 1, 1, 1];
    let f_size = vec![4, 7, 7, 7];
    let mut order = vec![0; 4];
    let mut child = vec![0; 4];
    let mut sibling = vec![0; 4];
    let mut stack = vec![0; 4];
    postorder(4, &parent, &nv, &f_size, &mut order, &mut child, &mut sibling, &mut stack);
    assert_eq!(order, vec![3, 0, 1, 2]);
}

#[test]
fn postorder_moves_a_first_child_last() {
    // 0 has children 1, 2, 3; 1 is the biggest
    let parent = vec![EMPTY, 0, 0, 0];
    let nv = vec![2, 1, 1, 1];
    let f_size = vec![4, 8, 7, 7];
    let mut order = vec![0; 4];
    let mut child = vec![0; 4];
    let mut sibling = vec![0; 4];
    let mut stack = vec![0; 4];
    postorder(4, &parent, &nv, &f_size, &mut order, &mut child, &mut sibling, &mut stack);
    assert_eq!(order, vec![3, 2, 0, 1]);
}

#[test]
fn postorder_skips_variables_that_are_not_elements() {
    // 1 is merged away (nv = 0): it has no number
    let parent = vec![EMPTY, 0, 0];
    let nv = vec![3, 0, 1];
    let f_size = vec![3, EMPTY, 1];
    let mut order = vec![0; 3];
    let mut child = vec![0; 3];
    let mut sibling = vec![0; 3];
    let mut stack = vec![0; 3];
    postorder(3, &parent, &nv, &f_size, &mut order, &mut child, &mut sibling, &mut stack);
    assert_eq!(order, vec![1, EMPTY, 0]);
}

#[test]
fn postorder_input_rejects_a_parent_that_is_not_an_element() {
    let parent = vec![1, EMPTY];
    let nv = vec![1, 0];
    let f_size = vec![1, 1];
    assert!(!check_postorder_input(2, &parent, &nv, &f_size));
}

#[test]
fn postorder_input_rejects_children_all_too_small() {
    let parent = vec![EMPTY, 0, 0];
    let nv = vec![1, 1, 1];
    let f_size = vec![1, -5, -2];
    assert!(!check_postorder_input(3, &parent, &nv, &f_size));
    let f_size = vec![1, -5, -1];
    assert!(check_postorder_input(3, &parent, &nv, &f_size));
}

#[test]
fn postorder_of_a_forest_without_edges_is_increasing() {
    // no element has a parent; 1 and 3 are not elements
    let parent = vec![EMPTY; 5];
    let nv = vec![1, 0, 2, 0, 1];
    let f_size = vec![1, EMPTY, 2, EMPTY, 1];
    let mut order = vec![0; 5];
    let mut child = vec![0; 5];
    let mut sibling = vec![0; 5];
    let mut stack = vec![0; 5];
    postorder(5, &parent, &nv, &f_size, &mut order, &mut child, &mut sibling, &mut stack);
    assert_eq!(order, vec![0, EMPTY, 1, EMPTY, 2]);
}

#[test]
fn post_tree_needs_a_stack_only_as_deep_as_its_subtree() {
    // 0 has the single child 1; the stack has room for those two nodes only
    let mut child = vec![1, EMPTY, EMPTY, EMPTY, EMPTY, EMPTY];
    let sibling = vec![EMPTY; 6];
    let mut order = vec![EMPTY; 6];
    let mut stack = vec![0; 2];
    let k = post_tree(0, 0, &mut child, &sibling, &mut order, &mut stack, 6);
    assert_eq!(k, 2);
    assert_eq!(order, vec![1, 0, EMPTY, EMPTY, EMPTY, EMPTY]);
}

#[test]
fn post_tree_runs_in_its_stack_depth() {
    // 0 has children 1 and 2; 1 has child 3, 2 has child 4: five nodes, but
    // the walk never holds more than four of them
    let mut child = vec![1, 3, 4, EMPTY, EMPTY];
    let mut sibling = vec![EMPTY; 5];
    sibling[1] = 2;
    let mut order = vec![EMPTY; 5];
    let mut stack = vec![0; 4];
    let k = post_tree(0, 0, &mut child, &sibling, &mut order, &mut stack, 5);
    assert_eq!(k, 5);
    assert_eq!(order, vec![4, 1, 3, 0, 2]);
}
