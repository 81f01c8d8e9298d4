use tree_list::recursive_tree_list::RecursiveTreeList;
use tree_list::tree_list::TreeList;

fn balanced_items<T: Copy>(tree: &RecursiveTreeList<T>) -> Vec<T> {
    let mut it = tree.iter();
    let mut out = Vec::new();
    while let Some(x) = it.next() {
        out.push(*x);
    }
    out
}

fn plain_items<T: Copy>(tree: &TreeList<T>) -> Vec<T> {
    let mut it = tree.iter();
    let mut out = Vec::new();
    while let Some(x) = it.next() {
        out.push(*x);
    }
    out
}

/// A small linear congruential generator, so that workloads repeat exactly.
struct Lcg(u64);

impl Lcg {
    fn next(&mut self, bound: usize) -> usize {
        self.0 = self.0.wrapping_mul(6364136223846793005).wrapping_add(1442695040888963407);
        ((self.0 >> 33) % (bound as u64)) as usize
    }
}

#[test]
fn positions_give_the_order_of_elements() {
    let mut balanced: RecursiveTreeList<char> = RecursiveTreeList::new();
    let mut plain: TreeList<char> = TreeList::new();
    let mut model: Vec<char> = Vec::new();
    let steps = [(0, 'a'), (0, 'b'), (2, 'c'), (1, 'd'), (4, 'e'), (2, 'f'), (0, 'g')];
    for (i, c) in steps {
        balanced.insert(i, c);
        plain.insert(i, c);
        model.insert(i, c);
    }
    assert_eq!(model, vec!['g', 'b', 'd', 'f', 'a', 'c', 'e']);
    assert_eq!(balanced_items(&balanced), model);
    assert_eq!(plain_items(&plain), model);
}

#[test]
fn length_counts_insertions_minus_removals() {
    let mut balanced: RecursiveTreeList<u32> = RecursiveTreeList::new();
    let mut plain: TreeList<u32> = TreeList::new();
    for i in 0..50u32 {
        balanced.push_back(i);
        plain.push_front(i);
    }
    for i in 0..20usize {
        balanced.remove(i);
        plain.pop_back();
    }
    assert_eq!(balanced.len(), 30);
    assert_eq!(plain.len(), 30);
    assert!(!balanced.is_empty());
    assert!(!plain.is_empty());
    while balanced.pop_front().is_some() {}
    while plain.pop_front().is_some() {}
    assert_eq!(balanced.len(), 0);
    assert_eq!(plain.len(), 0);
    assert!(balanced.is_empty());
    assert!(plain.is_empty());
}

#[test]
fn get_reads_back_what_insert_put() {
    for index in 0..=6usize {
        let mut balanced: RecursiveTreeList<u32> = RecursiveTreeList::new();
        let mut plain: TreeList<u32> = TreeList::new();
        for i in 0..6u32 {
            balanced.push_back(i);
            plain.push_back(i);
        }
        balanced.insert(index, 99);
        plain.insert(index, 99);
        assert_eq!(balanced.get(index), Some(&99));
        assert_eq!(plain.get(index), Some(&99));
    }
}

#[test]
fn remove_undoes_insert() {
    for index in 0..=8usize {
        let mut balanced: RecursiveTreeList<u32> = RecursiveTreeList::new();
        let mut plain: TreeList<u32> = TreeList::new();
        for i in 0..8u32 {
            balanced.insert((i as usize) / 2, i);
            plain.insert((i as usize) / 2, i);
        }
        let before_balanced = balanced_items(&balanced);
        let before_plain = plain_items(&plain);
        balanced.insert(index, 77);
        plain.insert(index, 77);
        assert_eq!(balanced.remove(index), 77);
        assert_eq!(plain.remove(index), 77);
        assert_eq!(balanced_items(&balanced), before_balanced);
        assert_eq!(plain_items(&plain), before_plain);
        assert_eq!(balanced.len(), 8);
        assert_eq!(plain.len(), 8);
    }
}

#[test]
fn boundaries_of_an_empty_and_a_full_range() {
    let mut balanced: RecursiveTreeList<char> = RecursiveTreeList::new();
    let mut plain: TreeList<char> = TreeList::new();
    assert_eq!(balanced.pop_front(), None);
    assert_eq!(balanced.pop_back(), None);
    assert_eq!(plain.pop_front(), None);
    assert_eq!(plain.pop_back(), None);
    assert_eq!(balanced.get(0), None);
    assert_eq!(plain.get(0), None);
    assert!(balanced.get_mut(0).is_none());
    assert!(plain.get_mut(0).is_none());

    balanced.insert(0, 'm');
    plain.insert(0, 'm');
    let n = balanced.len();
    balanced.insert(n, 'z');
    plain.insert(n, 'z');
    balanced.insert(0, 'a');
    plain.insert(0, 'a');
    assert_eq!(balanced_items(&balanced), vec!['a', 'm', 'z']);
    assert_eq!(plain_items(&plain), vec!['a', 'm', 'z']);
    assert_eq!(balanced.get(3), None);
    assert_eq!(plain.get(3), None);
    assert_eq!(balanced.get(2), Some(&'z'));
    assert_eq!(plain.get(2), Some(&'z'));
}

#[test]
fn get_mut_writes_in_place() {
    let mut balanced: RecursiveTreeList<u32> = RecursiveTreeList::new();
    let mut plain: TreeList<u32> = TreeList::new();
    for i in 0..10u32 {
        balanced.push_back(i);
        plain.push_back(i);
    }
    *balanced.get_mut(4).unwrap() = 40;
    *plain.get_mut(9).unwrap() = 90;
    assert_eq!(balanced_items(&balanced), vec![0, 1, 2, 3, 40, 5, 6, 7, 8, 9]);
    assert_eq!(plain_items(&plain), vec![0, 1, 2, 3, 4, 5, 6, 7, 8, 90]);
    assert!(balanced.get_mut(10).is_none());
    assert!(plain.get_mut(10).is_none());
}

#[test]
fn iterator_is_spent_once() {
    let mut balanced: RecursiveTreeList<u32> = RecursiveTreeList::new();
    let mut plain: TreeList<u32> = TreeList::new();
    balanced.push_back(1);
    plain.push_back(1);
    let mut a = balanced.iter();
    let mut b = plain.iter();
    assert_eq!(a.next(), Some(&1));
    assert_eq!(a.next(), None);
    assert_eq!(a.next(), None);
    assert_eq!(b.next(), Some(&1));
    assert_eq!(b.next(), None);
    assert_eq!(balanced_items(&balanced), vec![1]);
}

#[test]
fn engines_and_vec_agree_on_a_random_workload() {
    let mut rng = Lcg(7);
    let mut balanced: RecursiveTreeList<u32> = RecursiveTreeList::new();
    let mut plain: TreeList<u32> = TreeList::new();
    let mut model: Vec<u32> = Vec::new();
    for step in 0..3000u32 {
        match rng.next(6) {
            0 | 1 => {
                let i = rng.next(model.len() + 1);
                balanced.insert(i, step);
                plain.insert(i, step);
                model.insert(i, step);
            }
            2 => {
                balanced.push_front(step);
                plain.push_front(step);
                model.insert(0, step);
            }
            3 => {
                balanced.push_back(step);
                plain.push_back(step);
                model.push(step);
            }
            4 => {
                if !model.is_empty() {
                    let i = rng.next(model.len());
                    let expected = model.remove(i);
                    assert_eq!(balanced.remove(i), expected);
                    assert_eq!(plain.remove(i), expected);
                }
            }
            _ => {
                if rng.next(2) == 0 {
                    let expected = model.pop();
                    assert_eq!(balanced.pop_back(), expected);
                    assert_eq!(plain.pop_back(), expected);
                } else {
                    let expected = if model.is_empty() { None } else { Some(model.remove(0)) };
                    assert_eq!(balanced.pop_front(), expected);
                    assert_eq!(plain.pop_front(), expected);
                }
            }
        }
        assert_eq!(balanced.len(), model.len());
        assert_eq!(plain.len(), model.len());
        if step % 100 == 0 {
            assert_eq!(balanced_items(&balanced), model);
            assert_eq!(plain_items(&plain), model);
        }
    }
    assert_eq!(balanced_items(&balanced), model);
    assert_eq!(plain_items(&plain), model);
    for (i, x) in model.iter().enumerate() {
        assert_eq!(balanced.get(i), Some(x));
        assert_eq!(plain.get(i), Some(x));
    }
}

#[test]
fn clearing_a_long_chain_needs_no_deep_recursion() {
    let mut plain: TreeList<u32> = TreeList::new();
    for i in 0..100_000u32 {
        plain.push_back(i);
    }
    assert_eq!(plain.len(), 100_000);
    plain.clear();
    assert_eq!(plain.len(), 0);
    assert!(plain_items(&plain).is_empty());
    plain.push_back(5);
    assert_eq!(plain_items(&plain), vec![5]);
}

#[test]
fn dropping_a_long_chain_needs_no_deep_recursion() {
    let mut plain: TreeList<u32> = TreeList::new();
    for i in 0..100_000u32 {
        plain.push_front(i);
    }
    assert_eq!(plain.get(0), Some(&99_999));
    drop(plain);
}

#[test]
fn balanced_list_handles_many_sequential_appends() {
    let mut balanced: RecursiveTreeList<u32> = RecursiveTreeList::new();
    for i in 0..20_000u32 {
        balanced.push_back(i);
    }
    for i in 0..20_000u32 {
        assert_eq!(balanced.get(i as usize), Some(&i));
    }
    for i in (0..20_000u32).rev() {
        assert_eq!(balanced.pop_back(), Some(i));
    }
    assert!(balanced.is_empty());
}

#[test]
fn default_lists_are_empty() {
    let balanced: RecursiveTreeList<u8> = Default::default();
    let plain: TreeList<u8> = Default::default();
    assert_eq!(balanced.len(), 0);
    assert_eq!(plain.len(), 0);
}
