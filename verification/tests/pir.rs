use pung::pir::{PirAnswer, PirParams, PirQuery, PirResult};

#[test]
fn answers_as_bytes() {
    let answer = PirAnswer { answer: vec![1, 2, 3], num: 2 };
    assert_eq!(answer.to_bytes(), vec![1, 2, 3]);
    assert_eq!(answer.num, 2);
    let result = PirResult { result: vec![4, 5] };
    assert_eq!(result.to_bytes(), vec![4, 5]);
    let query = PirQuery { query: vec![6], num: 1 };
    assert_eq!(query.query, vec![6]);
    assert_eq!(query.num, 1);
}

#[test]
fn parameters_follow_the_number_of_tuples() {
    let p = PirParams::for_tuples(6, 2);
    assert_eq!(p, PirParams { size: 286, num: 6, alpha: 1, depth: 2 });
    assert_eq!(PirParams::for_tuples(3000, 1).alpha, 32);
}
