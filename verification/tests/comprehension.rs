use tobys_lib::comprehension::{comprehension, comprehension_flatten};

#[test]
fn baseline_test() {
    let vec = vec![1, 2, 3];
    let res: Vec<i32> = comprehension(vec.iter().collect::<Vec<_>>(), |x: &i32| *x, |_| true);
    assert_eq!(vec, res);
}

#[test]
fn multiple_for_clauses() {
    let vectors = vec![vec![1, 2, 3], vec![4, 5, 6]];
    let res: Vec<i32> = comprehension_flatten(
        vectors,
        |vec: Vec<i32>| comprehension(vec, |x| x, |x: &i32| x & 1 == 1),
        |_| true,
    );
    assert_eq!(res, vec![1, 3, 5]);
}

struct Color(i32, i32, i32);

#[test]
fn pattern_destructuring() {
    let vec = vec![
        Color(255, 255, 255),
        Color(0, 0, 0),
        Color(255, 0, 0),
        Color(0, 255, 0),
        Color(0, 0, 255),
    ];
    let vec: Vec<(i32, i32, i32)> =
        comprehension(vec, |Color(r, g, b)| (r, g, b), |Color(r, _, _)| *r != 0);
    assert_eq!(vec, vec![(255, 255, 255), (255, 0, 0)]);
}

#[test]
fn multiple_if_clauses() {
    let vec = vec![1, 2, 3, 4, 5, 6, 7, 8, 9, 10];
    let res: Vec<i32> = comprehension(vec, |x| x, |x: &i32| x & 1 != 0 && x % 3 != 0);
    assert_eq!(res, vec![1, 5, 7]);
}
