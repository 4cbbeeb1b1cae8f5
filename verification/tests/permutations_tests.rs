use aoc_toolkit::permutations::{GroupedPermutations, Permutations};

#[test]
fn iter() {
    let mut array = vec![0, 1, 2, 3];
    let mut cnt = 0;
    for a in Permutations::iter(&mut array) {
        println!("{a:?}");
        cnt += 1;
    }
    assert_eq!(cnt, 24)
}

#[test]
fn iter_skip_last() {
    let mut array = vec![0, 1, 2, 3];
    let mut cnt = 0;
    for a in Permutations::iter_skip_last(&mut array) {
        println!("{a:?}");
        cnt += 1;
    }
    assert_eq!(cnt, 6);
}

#[derive(Copy, Clone, Debug, PartialEq)]
enum Item {
    A,
    B,
}

fn get_string(slice: &[Item]) -> String {
    let mut s = String::with_capacity(slice.len());
    for v in slice.iter() {
        if matches!(v, Item::A) {
            s.push('A');
        } else {
            s.push('_');
        }
    }
    s
}

#[test]
fn grouped_perm_1() {
    let groups = vec![(Item::A, 3), (Item::B, 3)];

    let expected = [
        "___AAA", "__A_AA", "__AA_A", "__AAA_", "_A__AA", "_A_A_A", "_A_AA_", "_AA__A",
        "_AA_A_", "_AAA__", "A___AA", "A__A_A", "A__AA_", "A_A__A", "A_A_A_", "A_AA__",
        "AA___A", "AA__A_", "AA_A__", "AAA___",
    ];

    let mut group_perm = GroupedPermutations::new(&groups);
    let mut total = 0;
    println!();
    while let Some(next) = group_perm.next_permutation() {
        let got = get_string(&next);
        let expected = expected.get(total).copied().unwrap_or("");
        total += 1;
        println!("Iter {total:02}:  Expected:{expected}  Got:{got}");
        assert_eq!(got, expected);
    }
    assert_eq!(total, 20);
}

#[derive(Copy, Clone, Debug, PartialEq)]
enum Item3 {
    A,
    B,
    C,
}

#[test]
fn grouped_perm_2() {
    let mut expected = std::collections::HashMap::new();
    expected.insert(1, 6);
    expected.insert(2, 90);
    expected.insert(3, 1680);
    expected.insert(4, 34650);
    expected.insert(5, 756756);

    for width in 1..=6 {
        let groups = vec![(Item3::A, width), (Item3::B, width), (Item3::C, width)];

        let mut group_perm = GroupedPermutations::new(&groups);
        let mut total: u64 = 0;
        while group_perm.next_permutation().is_some() {
            total += 1;
        }
        println!("{total} combinations for {groups:?}");
        if let Some(expected) = expected.get(&width) {
            assert_eq!(*expected, total);
        }
    }
}

#[test]
fn iter_rows_are_permutations() {
    let mut array = vec![3, 1, 2];
    let rows = Permutations::iter(&mut array);
    assert_eq!(rows.len(), 6);
    for row in &rows {
        let mut sorted = row.clone();
        sorted.sort();
        assert_eq!(sorted, vec![1, 2, 3], "row {row:?} is not a permutation");
    }
    for i in 0..rows.len() {
        for j in (i + 1)..rows.len() {
            assert_ne!(rows[i], rows[j], "a permutation was produced twice");
        }
    }
    let mut back = array.clone();
    back.sort();
    assert_eq!(back, vec![1, 2, 3], "the array lost elements");
}

#[test]
fn iter_skip_last_keeps_tail() {
    let mut array = vec![10, 20, 30, 99];
    let rows = Permutations::iter_skip_last(&mut array);
    assert_eq!(rows.len(), 6);
    for row in &rows {
        assert_eq!(*row.last().unwrap(), 99, "row {row:?} moved the pinned tail");
        let mut sorted = row.clone();
        sorted.sort();
        assert_eq!(sorted, vec![10, 20, 30, 99]);
    }
    assert_eq!(array[3], 99);
}

#[test]
fn grouped_perm_stays_done() {
    let groups = vec![(Item::A, 1usize), (Item::B, 1usize)];
    let mut walk = GroupedPermutations::new(&groups);
    let mut produced = 0;
    while walk.next_permutation().is_some() {
        produced += 1;
        assert!(produced <= 100, "the walk never wrapped");
    }
    assert!(produced >= 1);
    // once the walk has wrapped it stays silent
    assert!(walk.next_permutation().is_none());
    assert!(walk.next_permutation().is_none());
}
