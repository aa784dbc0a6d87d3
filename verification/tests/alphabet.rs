use abbrev_core::alphabet::{is_plain_russian, keyboard_adjacent, normalize, skeleton};

#[test]
fn normalizes_case_and_yo() {
    assert_eq!(normalize("Ёжик"), "ежик");
    assert_eq!(normalize("ПРИВЕТ"), "привет");
}

#[test]
fn skeleton_drops_vowels_and_signs() {
    assert_eq!(skeleton("привет"), "првт");
    assert_eq!(skeleton("тестирование"), "тстрвн");
    assert_eq!(skeleton("тстрние"), "тстрн");
    assert_eq!(skeleton("семья"), "см");
}

#[test]
fn plain_russian_allows_only_internal_hyphens() {
    for w in ["привет", "кто-то", "что-нибудь", "ёж", ""] {
        assert!(is_plain_russian(w), "{w:?} should be plain");
    }
    for w in [
        "-",
        "--",
        "-слово",
        "слово-",
        "кто--то",
        "пароль1",
        "привет!",
        "api",
    ] {
        assert!(!is_plain_russian(w), "{w:?} should be rejected");
    }
}

#[test]
fn keyboard_adjacency() {
    assert!(keyboard_adjacent('а', 'п')); // same row
    assert!(keyboard_adjacent('а', 'е')); // row above
    assert!(!keyboard_adjacent('й', 'э'));
    assert!(!keyboard_adjacent('а', 'а'));
}

#[test]
fn normalizing_twice_changes_nothing() {
    for s in ["Ёжик", "ПРИВЕТ", "ёлка-Палка 42!", "Hello, МИР.", "", "абв ЁЁЁ ёёё"] {
        let n = normalize(s);
        assert_eq!(normalize(&n), n);
        assert!(!n.contains('ё') && !n.contains('Ё'), "{n:?}");
        assert_eq!(n.chars().count(), s.chars().count());
    }
    assert_eq!(normalize("ёлка-Палка 42!"), "елка-палка 42!");
}
