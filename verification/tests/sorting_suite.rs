use algokit::sorting::{
    bubble_sort, heap_sort, insertion_sort, merge_sort, quick_sort, selection_sort,
};

#[test]
fn lib_basics() {
    let unsorted: Vec<i64> = vec![11, 7, 3, 5, 2];
    let expected: Vec<i64> = vec![2, 3, 5, 7, 11];

    let test = |f: fn(&mut Vec<i64>)| {
        let mut array = unsorted.clone();
        f(&mut array);
        assert_eq!(expected, array);
    };

    test(selection_sort);
    test(bubble_sort);

    test(insertion_sort);
    test(merge_sort);

    test(quick_sort);
    test(heap_sort);
}

#[test]
fn sorts_handle_edge_cases() {
    let cases: Vec<Vec<i64>> = vec![
        vec![],
        vec![1],
        vec![2, 1],
        vec![3, 3, 3],
        vec![5, -1, 4, -1, 0, 5],
    ];
    let sorts: Vec<fn(&mut Vec<i64>)> = vec![
        selection_sort,
        bubble_sort,
        insertion_sort,
        merge_sort,
        quick_sort,
        heap_sort,
    ];
    for case in &cases {
        let mut reference = case.clone();
        reference.sort();
        for f in &sorts {
            let mut arr = case.clone();
            f(&mut arr);
            assert_eq!(reference, arr);
        }
    }
}
