use imgor::grouping::GroupByFn;
use imgor::group_by_fn;

fn collect<T: Clone>(v: &[T], ranges: &[(usize, usize)]) -> Vec<Vec<T>> {
    ranges.iter().map(|&(s, e)| v[s..e].to_vec()).collect()
}

#[test]
fn test_grouping_empty() {
    let v: Vec<u32> = vec![];
    let mut groups = GroupByFn::new(&v, |x: &u32, y: &u32| x == y);

    assert_eq!(groups.groups().len(), 0);
}

#[test]
fn test_grouping_single_int() {
    let v = vec![1];
    let mut groups = GroupByFn::new(&v, |x: &i32, y: &i32| x == y);

    let a: Vec<Vec<_>> = collect(&v, &groups.groups());
    let e = vec![vec![1]];
    assert_eq!(a, e);
}

#[test]
fn test_grouping_ints() {
    let v = vec![1, 1, 1, 2, 3, 3, 3];
    let mut groups = GroupByFn::new(&v, |x: &i32, y: &i32| x == y);

    let a: Vec<Vec<_>> = collect(&v, &groups.groups());
    let e = vec![vec![1, 1, 1], vec![2], vec![3, 3, 3]];
    assert_eq!(a, e);
}

#[test]
fn test_grouping_strings() {
    let v = vec!["aa", "aa", "bbb", "bbb", "c", "c", "c"];
    let mut groups = GroupByFn::new(&v, |x: &&str, y: &&str| x == y);
    let a: Vec<Vec<_>> = collect(&v, &groups.groups());
    let e = vec![vec!["aa", "aa"], vec!["bbb", "bbb"], vec!["c", "c", "c"]];
    assert_eq!(a, e);
}

#[test]
fn grouping_runs_put_together_give_the_input() {
    let v = vec![5, 5, 7, 5, 5, 9, 9, 9, 1];
    let mut groups = group_by_fn(&v, |x: &i32, y: &i32| x == y);
    let ranges = groups.groups();
    assert_eq!(ranges, vec![(0, 2), (2, 3), (3, 5), (5, 8), (8, 9)]);
    let joined: Vec<i32> = collect(&v, &ranges).into_iter().flatten().collect();
    assert_eq!(joined, v);
}

#[test]
fn grouping_compares_with_the_first_of_the_run() {
    // "within 2 of the first": 1, 2, 3 join 1; 4 is 3 away from 1
    let v = vec![1, 2, 3, 4, 5];
    let mut groups = group_by_fn(&v, |x: &i32, y: &i32| (x - y).abs() <= 2);
    assert_eq!(groups.groups(), vec![(0, 3), (3, 5)]);
}

#[test]
fn grouping_next_steps_one_run_at_a_time() {
    let v = vec![2, 2, 3];
    let mut groups = group_by_fn(&v, |x: &i32, y: &i32| x == y);
    assert_eq!(groups.next(), Some((0, 2)));
    assert_eq!(groups.next(), Some((2, 3)));
    assert_eq!(groups.next(), None);
    assert_eq!(groups.next(), None);
}
