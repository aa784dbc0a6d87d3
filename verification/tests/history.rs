use abbrev_core::history::UserHistory;

#[test]
fn confirm_and_reject_count_separately() {
    let mut h = UserHistory::default();
    h.confirm("првт", "приват");
    h.confirm("првт", "приват");
    h.reject("првт", "приват");
    assert_eq!(h.pair_counts("првт", "приват"), (2, 1));
    assert_eq!(h.form_count("приват"), 2);
    // Reverts do not raise global popularity.
    h.reject("прв", "привет");
    assert_eq!(h.form_count("привет"), 0);
    assert_eq!(h.pair_counts("нет", "нет"), (0, 0));
}

#[test]
fn tsv_roundtrip_preserves_confirmed_and_reverted() {
    let mut h = UserHistory::default();
    h.confirm("првт", "привет");
    h.confirm("првт", "привет");
    h.reject("првт", "приват");
    let tsv = h.to_tsv();
    assert_eq!(tsv, "првт\tприват\t0\t1\nпрвт\tпривет\t2\t0");
    let restored = UserHistory::from_tsv(&tsv);
    assert_eq!(restored.pair_counts("првт", "привет"), (2, 0));
    assert_eq!(restored.pair_counts("првт", "приват"), (0, 1));
    assert_eq!(restored.form_count("привет"), 2);
    assert_eq!(restored.to_tsv(), tsv);
}

#[test]
fn legacy_three_column_blob_still_loads() {
    // Old format: skeleton<TAB>form<TAB>count (count == confirmed).
    let h = UserHistory::from_tsv("првт\tпривет\t3");
    assert_eq!(h.pair_counts("првт", "привет"), (3, 0));
    assert_eq!(h.form_count("привет"), 3);
    // Malformed lines are skipped; a bad revert count reads as zero.
    let h = UserHistory::from_tsv("bad\nа\tб\tx\nа\tб\t 4 \tзло\n");
    assert_eq!(h.pair_counts("а", "б"), (4, 0));
}

#[test]
fn merge_sums_counters_across_devices() {
    let mut phone = UserHistory::default();
    phone.confirm("првт", "привет");
    let mut laptop = UserHistory::default();
    laptop.confirm("првт", "привет");
    laptop.reject("првт", "приват");

    let mut merged = UserHistory::default();
    merged.merge(&phone);
    merged.merge(&laptop);

    // Two confirms of the same pair across devices stack.
    let mut twice = UserHistory::default();
    twice.confirm("првт", "привет");
    twice.confirm("првт", "привет");
    twice.reject("првт", "приват");
    assert_eq!(merged.to_tsv(), twice.to_tsv());

    // The other merge order gives the same counters.
    let mut other = UserHistory::default();
    other.merge(&laptop);
    other.merge(&phone);
    assert_eq!(other.to_tsv(), merged.to_tsv());
    assert_eq!(other.form_count("привет"), 2);
}

#[test]
fn pairs_without_evidence_are_not_serialized() {
    let h = UserHistory::from_tsv("а\tб\t0\t0\nв\tг\t1\t0");
    assert_eq!(h.to_tsv(), "в\tг\t1\t0");
    assert_eq!(UserHistory::default().to_tsv(), "");
}

#[test]
fn form_popularity_sums_the_confirmations_of_its_pairs() {
    let mut h = UserHistory::default();
    h.confirm("првт", "привет");
    h.confirm("прв", "привет");
    h.reject("прв", "привет");
    let mut other = UserHistory::default();
    other.confirm("пр", "привет");
    other.confirm("првт", "привет");
    h.merge(&other);
    let pairs = h.pair_counts("првт", "привет").0
        + h.pair_counts("прв", "привет").0
        + h.pair_counts("пр", "привет").0;
    assert_eq!(pairs, 4);
    assert_eq!(h.form_count("привет"), pairs);
}

#[test]
fn restoring_a_repeated_pair_keeps_popularity_in_sync() {
    let h = UserHistory::from_tsv("првт\tпривет\t3\nпрвт\tпривет\t5");
    assert_eq!(h.pair_counts("првт", "привет"), (5, 0));
    assert_eq!(h.form_count("привет"), 5);
    let h = UserHistory::from_tsv("првт\tпривет\t3\nпрв\tпривет\t2\nпрвт\tпривет\t0\t4");
    assert_eq!(h.pair_counts("првт", "привет"), (0, 4));
    assert_eq!(h.form_count("привет"), 2);
}

const SKELETONS: [&str; 4] = ["првт", "тя", "рбт", "стрн"];
const FORMS: [&str; 5] = ["привет", "приват", "тебя", "работа", "сторона"];

/// Replays a fixed sequence of (skeleton, form, confirm?) operations drawn
/// from a small alphabet, so counters collide and accumulate.
fn history_from(seed: u64, len: usize) -> UserHistory {
    let mut h = UserHistory::default();
    let mut x = seed;
    for _ in 0..len {
        x = x.wrapping_mul(6364136223846793005).wrapping_add(1442695040888963407);
        let s = ((x >> 33) % 4) as usize;
        let f = ((x >> 40) % 5) as usize;
        if (x >> 20) & 1 == 1 {
            h.confirm(SKELETONS[s], FORMS[f]);
        } else {
            h.reject(SKELETONS[s], FORMS[f]);
        }
    }
    h
}

fn merged(parts: &[&UserHistory]) -> UserHistory {
    let mut m = UserHistory::default();
    for p in parts {
        m.merge(p);
    }
    m
}

#[test]
fn merge_is_commutative() {
    for (a, b) in [(1u64, 2u64), (3, 4), (5, 5), (7, 0)] {
        let (ha, hb) = (history_from(a, 17), history_from(b, 23));
        assert_eq!(merged(&[&ha, &hb]).to_tsv(), merged(&[&hb, &ha]).to_tsv());
    }
}

#[test]
fn merge_is_associative() {
    for (a, b, c) in [(1u64, 2u64, 3u64), (4, 5, 6), (9, 9, 9)] {
        let (ha, hb, hc) = (history_from(a, 11), history_from(b, 19), history_from(c, 7));
        let bc = merged(&[&hb, &hc]);
        assert_eq!(merged(&[&ha, &hb, &hc]).to_tsv(), merged(&[&ha, &bc]).to_tsv());
    }
}

#[test]
fn merging_empty_is_identity() {
    for a in [0u64, 1, 2, 42] {
        let ha = history_from(a, 20);
        let empty = UserHistory::default();
        assert_eq!(merged(&[&ha, &empty]).to_tsv(), ha.to_tsv());
    }
}

#[test]
fn tsv_roundtrip_is_stable() {
    for a in [0u64, 1, 2, 3, 42, 1000] {
        let h = history_from(a, 24);
        let tsv = h.to_tsv();
        let r = UserHistory::from_tsv(&tsv);
        assert_eq!(r.to_tsv(), tsv);
        for f in FORMS {
            assert_eq!(r.form_count(f), h.form_count(f));
            for s in SKELETONS {
                assert_eq!(r.pair_counts(s, f), h.pair_counts(s, f));
            }
        }
    }
}
