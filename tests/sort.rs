use algorithms_rs::sort::{Bubble, Insertion, Merge, Quick, Selection};

/// Unsorted inputs and their sorted forms: the small edge cases, an
/// ascending and a descending run, and pseudo-random runs with a repeated
/// value, a zero, and both signs.
fn test_data() -> (Vec<Vec<i32>>, Vec<Vec<i32>>) {
    let mut seed: u64 = 0x2545_f491_4f6c_dd1d;
    let mut next = move |bound: u64| -> u64 {
        seed ^= seed << 13;
        seed ^= seed >> 7;
        seed ^= seed << 17;
        seed % bound
    };
    let mut value = |next: &mut dyn FnMut(u64) -> u64| next(2001) as i32 - 1000;

    let mut unsorted: Vec<Vec<i32>> = vec![vec![], vec![0], vec![5, -2], vec![7, 0, -3]];
    let mut run: Vec<i32> = (0..20).map(|_| value(&mut next)).collect();
    run.sort();
    let mut rev = run.clone();
    rev.reverse();
    unsorted.push(run);
    unsorted.push(rev);

    for _ in 0..100 {
        let len = 3 + next(97) as usize;
        let dup = value(&mut next);
        let mut v = vec![dup, dup];
        while v.len() < len {
            v.push(value(&mut next));
        }
        if !v.contains(&0) {
            v.push(0);
        }
        if v.iter().all(|&x| x >= 0) {
            v.push(-1 - next(1000) as i32);
        } else {
            v.push(1 + next(1000) as i32);
        }
        for i in (1..v.len()).rev() {
            let j = next(i as u64 + 1) as usize;
            v.swap(i, j);
        }
        unsorted.push(v);
    }

    let sorted = unsorted
        .iter()
        .map(|v| {
            let mut s = v.clone();
            s.sort();
            s
        })
        .collect();
    (unsorted, sorted)
}

fn check_sort(sort: fn(&mut [i32])) {
    let (unsorted, sorted) = test_data();
    for (i, vec) in unsorted.iter().enumerate() {
        let mut sorted_vec = vec.clone();
        sort(&mut sorted_vec);
        assert_eq!(sorted_vec, sorted[i]);
    }
}

#[test]
fn bubble_test_bubble_sort() {
    check_sort(|a| a.bubble_sort());
}

#[test]
fn bubble_test_cocktail_sort() {
    check_sort(|a| a.cocktail_sort());
}

#[test]
fn test_bubble_test_bubble_sort() {
    let (unsorted, sorted) = test_data();
    for (i, vec) in unsorted.iter().enumerate() {
        let mut sorted_vec = vec.clone();
        sorted_vec.bubble_sort();
        assert_eq!(sorted_vec, sorted[i]);
    }
}

#[test]
fn test_bubble_test_cocktail_sort() {
    let (unsorted, sorted) = test_data();
    for (i, vec) in unsorted.iter().enumerate() {
        let mut sorted_vec = vec.clone();
        sorted_vec.cocktail_sort();
        assert_eq!(sorted_vec, sorted[i]);
    }
}

#[test]
fn insertion_test_insertion_sort() {
    check_sort(|a| a.insertion_sort());
}

#[test]
fn insertion_test_binary_insertion_sort() {
    check_sort(|a| a.binary_insertion_sort());
}

#[test]
fn insertion_test_shell_sort() {
    check_sort(|a| a.shell_sort());
}

#[test]
fn test_merge_sort_recu() {
    check_sort(|a| a.merge_sort_recu());
}

#[test]
fn test_merge_sort_iter() {
    check_sort(|a| a.merge_sort_iter());
}

#[test]
fn test_quick_sort() {
    check_sort(|a| a.quick_sort());
}

#[test]
fn selection_test_selection_sort() {
    check_sort(|a| a.selection_sort());
}

#[test]
fn test_selection_test_selection_sort() {
    let (unsorted, sorted) = test_data();
    for (i, vec) in unsorted.iter().enumerate() {
        let mut sorted_vec = vec.clone();
        sorted_vec.selection_sort();
        assert_eq!(sorted_vec, sorted[i]);
    }
}

const SCENARIO: [i32; 10] = [3, 1, 2, 4, 0, 5, 9, 7, 6, 8];
const SCENARIO_SORTED: [i32; 10] = [0, 1, 2, 3, 4, 5, 6, 7, 8, 9];

#[test]
fn every_sort_orders_the_scenario_and_keeps_tiny_inputs() {
    let sorts: Vec<fn(&mut [i32])> = vec![
        |a| a.bubble_sort(),
        |a| a.cocktail_sort(),
        |a| a.insertion_sort(),
        |a| a.binary_insertion_sort(),
        |a| a.shell_sort(),
        |a| a.selection_sort(),
        |a| a.merge_sort_recu(),
        |a| a.merge_sort_iter(),
        |a| a.quick_sort(),
    ];
    for sort in sorts {
        let mut a = SCENARIO;
        sort(&mut a);
        assert_eq!(a, SCENARIO_SORTED);
        let mut empty: [i32; 0] = [];
        sort(&mut empty);
        assert_eq!(empty, []);
        let mut one = [42];
        sort(&mut one);
        assert_eq!(one, [42]);
    }
}

#[test]
fn sorts_keep_duplicates_and_extremes() {
    let input = [i32::MAX, 0, i32::MIN, 7, 7, -1, i32::MAX, 0];
    let mut expected = input;
    expected.sort();
    let sorts: Vec<fn(&mut [i32])> = vec![
        |a| a.bubble_sort(),
        |a| a.cocktail_sort(),
        |a| a.insertion_sort(),
        |a| a.binary_insertion_sort(),
        |a| a.shell_sort(),
        |a| a.selection_sort(),
        |a| a.merge_sort_recu(),
        |a| a.merge_sort_iter(),
        |a| a.quick_sort(),
    ];
    for sort in sorts {
        let mut a = input;
        sort(&mut a);
        assert_eq!(a, expected);
    }
}

const DATA: [i32; 10] = [3, 1, 2, 4, 0, 5, 9, 7, 6, 8];
const DATA_SORTED: [i32; 10] = [0, 1, 2, 3, 4, 5, 6, 7, 8, 9];

#[test]
fn test_insertion_test_insertion_sort() {
    let mut vec = Vec::from(DATA);
    let mut arr = DATA;
    let slice = &mut DATA.clone()[..];

    vec.insertion_sort();
    arr.insertion_sort();
    slice.insertion_sort();

    assert_eq!(vec, DATA_SORTED);
    assert_eq!(arr, DATA_SORTED);
    assert_eq!(slice, DATA_SORTED);
}

#[test]
fn test_insertion_test_binary_insertion_sort() {
    let mut vec = Vec::from(DATA);
    let mut arr = DATA;
    let slice = &mut DATA.clone()[..];

    vec.binary_insertion_sort();
    arr.binary_insertion_sort();
    slice.binary_insertion_sort();

    assert_eq!(vec, DATA_SORTED);
    assert_eq!(arr, DATA_SORTED);
    assert_eq!(slice, DATA_SORTED);
}

#[test]
fn test_insertion_test_shell_sort() {
    let mut vec = Vec::from(DATA);
    let mut arr = DATA;
    let slice = &mut DATA.clone()[..];

    vec.shell_sort();
    arr.shell_sort();
    slice.shell_sort();

    assert_eq!(vec, DATA_SORTED);
    assert_eq!(arr, DATA_SORTED);
    assert_eq!(slice, DATA_SORTED);
}
