use abbrev_core::rank::{common_ending_len, common_prefix_len};

#[test]
fn common_prefix() {
    let a: Vec<char> = "тстрн".chars().collect();
    let b: Vec<char> = "тстрвн".chars().collect();
    assert_eq!(common_prefix_len(&a, &b), 4);
    let c: Vec<char> = "нстрн".chars().collect();
    assert_eq!(common_prefix_len(&a, &c), 0);
}

#[test]
fn common_ending() {
    let a: Vec<char> = "тстрние".chars().collect();
    let b: Vec<char> = "тестирование".chars().collect();
    assert_eq!(common_ending_len(&a, &b, 3), 3);
    let c: Vec<char> = "привет".chars().collect();
    assert_eq!(common_ending_len(&a, &c, 3), 0);
}
