use dslab::exercise::{level_order, right_side_view, TreeNode};

#[test]
fn exercise_test_insert() {
    let node = Some(Box::new(TreeNode {
        val: 1,
        left: Some(Box::new(TreeNode::new(2))),
        right: None,
    }));
    println!("{:?}", right_side_view(node));
}

fn sample_tree() -> Option<Box<TreeNode>> {
    // 1 on top, 2 and 3 below, 4 under the left 2.
    Some(Box::new(TreeNode {
        val: 1,
        left: Some(Box::new(TreeNode {
            val: 2,
            left: Some(Box::new(TreeNode::new(4))),
            right: None,
        })),
        right: Some(Box::new(TreeNode::new(3))),
    }))
}

#[test]
fn level_order_groups_by_depth() {
    assert_eq!(
        level_order(sample_tree()),
        vec![vec![1], vec![2, 3], vec![4]]
    );
    assert_eq!(level_order(None), Vec::<Vec<i32>>::new());
}

#[test]
fn right_side_view_takes_rightmost() {
    assert_eq!(right_side_view(sample_tree()), vec![1, 3, 4]);
    assert_eq!(right_side_view(None), Vec::<i32>::new());
    let left_chain = Some(Box::new(TreeNode {
        val: 1,
        left: Some(Box::new(TreeNode::new(2))),
        right: None,
    }));
    assert_eq!(right_side_view(left_chain), vec![1, 2]);
}
