use huffman::{bubble, insertion, quicksort, selection};

fn test_it(go: impl Fn(&mut Vec<i64>)) {
    let mut vecs = vec![
        vec![],
        vec![2, 1],
        vec![1, 3, 2],
        vec![2, 3, 1],
        vec![5, 1, 3, 2, 4],
        vec![5, 1, 2, 4, 3],
        vec![4, 3, 5],
        vec![5, 4, 3, 5],
        vec![6, 4, 3, 5],
        vec![1, 4, 3, 5],
    ];
    for xs in &mut vecs {
        let ys = {
            let mut xs = xs.clone();
            xs.sort();
            xs
        };
        go(xs);
        assert_eq!(xs, &ys)
    }
}

#[test]
fn test_bubble_works() {
    test_it(|v| bubble::Algo.sort(v));
}

#[test]
fn test_insertion_works() {
    test_it(|v| insertion::Algo.sort(v));
}

#[test]
fn test_selection_works() {
    test_it(|v| selection::Algo.sort(v));
}

#[test]
fn test_quicksort_works() {
    test_it(|v| quicksort::Algo.sort(v));
}

#[test]
fn sorts_keep_duplicates_and_negatives() {
    let input = vec![3, -1, 3, 0, -7, 3, 2];
    let mut a = input.clone();
    let mut b = input.clone();
    let mut c = input.clone();
    let mut d = input.clone();
    quicksort::Algo.sort(&mut d);
    insertion::Algo.sort(&mut a);
    selection::Algo.sort(&mut b);
    bubble::Algo.sort(&mut c);
    assert_eq!(a, vec![-7, -1, 0, 2, 3, 3, 3]);
    assert_eq!(b, a);
    assert_eq!(c, a);
    assert_eq!(d, a);
}
