use yorkie::llrb::Tree;

fn create_key_value(key_time: u64, value: u64) -> (u64, u64) {
    (key_time, value)
}

#[test]
fn keeping_order() {
    let cases = vec![
        vec![0, 1, 2, 3, 4, 5, 6, 7, 8, 9],
        vec![8, 5, 7, 9, 1, 3, 6, 0, 4, 2],
        vec![7, 2, 0, 3, 1, 9, 8, 4, 6, 5],
        vec![2, 0, 3, 5, 8, 6, 4, 1, 9, 7],
        vec![8, 4, 7, 9, 2, 6, 0, 3, 1, 5],
        vec![7, 1, 5, 2, 8, 6, 3, 4, 0, 9],
        vec![9, 8, 7, 6, 5, 4, 3, 2, 1, 0],
    ];

    for case in cases {
        let mut tree: Tree<u64, u64> = Tree::new();
        for num in case {
            let (key, value) = create_key_value(num, num);
            tree.insert(key, value);
        }

        assert_eq!("0,1,2,3,4,5,6,7,8,9", tree.to_string());

        tree.remove(8);
        assert_eq!("0,1,2,3,4,5,6,7,9", tree.to_string());

        tree.remove(2);
        assert_eq!("0,1,3,4,5,6,7,9", tree.to_string());

        tree.remove(5);
        assert_eq!("0,1,3,4,6,7,9", tree.to_string());
    }
}

#[test]
fn floor() {
    let mut tree: Tree<u64, u64> = Tree::new();

    match tree.floor(1) {
        Some(_) => assert!(false),
        None => assert!(true),
    }

    //   2
    //  / |
    // 1   4
    let (key, value) = create_key_value(2, 2);
    tree.insert(key, value);
    let (key, value) = create_key_value(4, 4);
    tree.insert(key, value);
    let (key, value) = create_key_value(1, 1);
    tree.insert(key, value);

    // return equal key
    match tree.floor(4) {
        Some((_, value)) => assert_eq!("4", value.to_string()),
        _ => assert!(false),
    }
    // return greatest key
    match tree.floor(5) {
        Some((_, value)) => assert_eq!("4", value.to_string()),
        _ => assert!(false),
    }

    match tree.floor(2) {
        Some((_, value)) => assert_eq!("2", value.to_string()),
        _ => assert!(false),
    }
    match tree.floor(1) {
        Some((_, value)) => assert_eq!("1", value.to_string()),
        _ => assert!(false),
    }
    // no key is at most 0
    match tree.floor(0) {
        Some(_) => assert!(false),
        None => assert!(true),
    }
}

#[test]
fn floor_between_keys() {
    let mut tree: Tree<u64, u64> = Tree::new();
    for k in [10u64, 20, 30, 40, 50] {
        tree.insert(k, k * 10);
    }
    assert_eq!(tree.floor(35), Some((30, 300)));
    assert_eq!(tree.floor(10), Some((10, 100)));
    assert_eq!(tree.floor(9), None);
    assert_eq!(tree.floor(1000), Some((50, 500)));
}

#[test]
fn insert_replaces_value_and_remove_absent_is_noop() {
    let mut tree: Tree<u64, u64> = Tree::new();
    assert_eq!(tree.to_string(), "");
    tree.insert(3, 30);
    tree.insert(1, 10);
    tree.insert(3, 33);
    assert_eq!(tree.to_string(), "10,33");
    tree.remove(7);
    assert_eq!(tree.to_string(), "10,33");
    tree.remove(1);
    tree.remove(3);
    assert_eq!(tree.to_string(), "");
    tree.remove(3);
    assert_eq!(tree.to_string(), "");
}

#[test]
fn many_inserts_and_removals_stay_ordered() {
    let mut tree: Tree<u64, u64> = Tree::new();
    let mut expected: Vec<u64> = Vec::new();
    let mut x: u64 = 7;
    for _ in 0..200 {
        x = (x * 31 + 11) % 97;
        tree.insert(x, x);
        if !expected.contains(&x) {
            expected.push(x);
        }
        if x % 3 == 0 {
            tree.remove(x);
            expected.retain(|&e| e != x);
        }
    }
    expected.sort();
    let want: Vec<String> = expected.iter().map(|e| e.to_string()).collect();
    assert_eq!(tree.to_string(), want.join(","));
}

#[test]
fn balanced_after_inserts_and_removals() {
    let mut tree: Tree<u64, u64> = Tree::new();
    assert!(tree.is_balanced());
    let mut x: u64 = 3;
    for step in 0..400u64 {
        x = (x * 57 + 23) % 101;
        if step % 3 == 2 {
            tree.remove(x);
        } else {
            tree.insert(x, step);
        }
        assert!(tree.is_balanced());
    }
}

#[test]
fn removing_absent_keys_keeps_balance() {
    let mut tree: Tree<u64, u64> = Tree::new();
    tree.insert(13, 13);
    tree.insert(6, 6);
    tree.remove(15);
    assert!(tree.is_balanced());
    assert_eq!(tree.to_string(), "6,13");
    tree.insert(0, 0);
    tree.insert(3, 3);
    tree.insert(9, 9);
    tree.remove(10);
    assert!(tree.is_balanced());
    assert_eq!(tree.to_string(), "0,3,6,9,13");
}
