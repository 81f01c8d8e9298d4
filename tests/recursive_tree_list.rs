use tree_list::recursive_tree_list::RecursiveTreeList;

fn items(tree: &RecursiveTreeList<char>) -> Vec<char> {
    let mut it = tree.iter();
    let mut out = Vec::new();
    while let Some(c) = it.next() {
        out.push(*c);
    }
    out
}

#[test]
fn recursive_tree_list_test_empty_tree() {
    let tree: RecursiveTreeList<char> = RecursiveTreeList::new();

    assert_eq!(tree.len(), 0);
    assert_eq!(items(&tree), [].to_vec());
}

#[test]
fn recursive_tree_list_test_add_one() {
    let mut tree: RecursiveTreeList<char> = RecursiveTreeList::new();

    tree.push_back('a');

    assert_eq!(tree.len(), 1);
    assert_eq!(items(&tree), ['a'].to_vec());
}

#[test]
fn recursive_tree_list_test_add_three() {
    let mut tree: RecursiveTreeList<char> = RecursiveTreeList::new();

    tree.push_back('a');
    tree.push_back('b');
    tree.push_back('c');

    assert_eq!(tree.len(), 3);
    assert_eq!(
        items(&tree),
        ['a', 'b', 'c'].to_vec()
    );
}

#[test]
fn recursive_tree_list_test_add_front_one() {
    let mut tree: RecursiveTreeList<char> = RecursiveTreeList::new();

    tree.push_front('a');

    assert_eq!(tree.len(), 1);
    assert_eq!(items(&tree), ['a'].to_vec());
}

#[test]
fn recursive_tree_list_test_add_front_three() {
    let mut tree: RecursiveTreeList<char> = RecursiveTreeList::new();

    tree.push_front('a');
    tree.push_front('b');
    tree.push_front('c');

    assert_eq!(tree.len(), 3);
    assert_eq!(
        items(&tree),
        ['c', 'b', 'a'].to_vec()
    );
}

#[test]
fn recursive_tree_list_test_insert_one() {
    let mut tree: RecursiveTreeList<char> = RecursiveTreeList::new();

    tree.insert(0, 'a');

    assert_eq!(tree.len(), 1);
    assert_eq!(items(&tree), ['a'].to_vec());
}

#[test]
fn recursive_tree_list_test_insert_ordered() {
    let mut tree: RecursiveTreeList<char> = RecursiveTreeList::new();

    tree.insert(0, 'a');
    tree.insert(1, 'b');
    tree.insert(2, 'c');
    tree.insert(3, 'd');

    assert_eq!(tree.len(), 4);
    assert_eq!(
        items(&tree),
        ['a', 'b', 'c', 'd'].to_vec()
    );
}

#[test]
fn recursive_tree_list_test_insert_indexed() {
    let mut tree: RecursiveTreeList<char> = RecursiveTreeList::new();

    tree.insert(0, 'a');
    tree.insert(0, 'b');
    tree.insert(2, 'c');
    tree.insert(1, 'd');

    assert_eq!(tree.len(), 4);
    assert_eq!(
        items(&tree),
        ['b', 'd', 'a', 'c'].to_vec()
    );
}

#[test]
fn recursive_tree_list_test_push_pop() {
    let mut tree: RecursiveTreeList<char> = RecursiveTreeList::new();

    tree.push_back('a');
    tree.push_back('b');
    tree.push_back('c');
    tree.push_back('d');

    assert_eq!(tree.pop_back(), Some('d'));
    assert_eq!(tree.pop_back(), Some('c'));
    tree.push_back('e');
    tree.push_back('f');

    assert_eq!(tree.len(), 4);
    assert_eq!(
        items(&tree),
        ['a', 'b', 'e', 'f'].to_vec()
    );
}

#[test]
fn recursive_tree_list_test_insert_pop() {
    let mut tree: RecursiveTreeList<char> = RecursiveTreeList::new();

    tree.insert(0, 'a');
    tree.insert(0, 'b');
    assert_eq!(tree.pop_back(), Some('a'));

    tree.insert(1, 'c');
    tree.insert(1, 'd');

    assert_eq!(tree.len(), 3);
    assert_eq!(
        items(&tree),
        ['b', 'd', 'c'].to_vec()
    );
}

#[test]
fn recursive_tree_list_test_push_remove() {
    let mut tree: RecursiveTreeList<char> = RecursiveTreeList::new();

    tree.push_back('a');
    tree.push_back('b');
    tree.push_back('c');
    tree.push_back('d');
    assert_eq!(tree.remove(3), 'd');

    tree.push_back('e');
    tree.push_back('f');
    assert_eq!(tree.remove(2), 'c');

    assert_eq!(tree.len(), 4);
    assert_eq!(
        items(&tree),
        ['a', 'b', 'e', 'f'].to_vec()
    );
}

#[test]
fn recursive_tree_list_test_insert_remove() {
    let mut tree: RecursiveTreeList<char> = RecursiveTreeList::new();

    tree.insert(0, 'a');
    tree.insert(0, 'b');
    tree.insert(2, 'c');
    tree.insert(1, 'd');
    println!("{:?}", tree);

    assert_eq!(tree.remove(1), 'd');
    println!("{:?}", tree);
    assert_eq!(tree.remove(1), 'a');
    println!("{:?}", tree);

    assert_eq!(tree.len(), 2);
    assert_eq!(
        items(&tree),
        ['b', 'c'].to_vec()
    );
}

#[test]
fn recursive_tree_list_test_get() {
    let mut tree: RecursiveTreeList<char> = RecursiveTreeList::new();

    tree.insert(0, 'a');
    tree.insert(0, 'b');
    tree.insert(2, 'c');
    tree.insert(1, 'd');

    assert_eq!(tree.get(0), Some('b').as_ref());
    assert_eq!(tree.get(1), Some('d').as_ref());
    assert_eq!(tree.get(2), Some('a').as_ref());
    assert_eq!(tree.get(3), Some('c').as_ref());
}

#[test]
fn test_clear() {
    let mut tree: RecursiveTreeList<char> = RecursiveTreeList::new();

    tree.push_back('a');
    tree.push_front('b');
    tree.push_back('c');
    tree.insert(2, 'd');
    tree.push_back('e');
    tree.insert(3, 'f');

    tree.clear();

    assert_eq!(tree.len(), 0);
    assert_eq!(
        items(&tree),
        Vec::new()
    );
}
