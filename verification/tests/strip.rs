use abbrev_core::mask::Masker;
use abbrev_core::shortcuts::Shortcuts;
use abbrev_core::strip::{
    Candidate, GroupCandidate, extend_leaders, extend_strip, mask_groups, mask_strip, masking_active,
    shortcut_leaders, shortcut_strip, variants_without,
};
use abbrev_core::tone::Register;

fn cand(form: &str, lemma: &str, slot: usize) -> Candidate {
    Candidate { form: form.to_string(), lemma: lemma.to_string(), slot: Some(slot) }
}

#[test]
fn shortcuts_lead_and_dedup_by_form() {
    let s = Shortcuts::from_tsv_str("спс\tспасибо\nСПС\tСпасибо\nспс\tспасибки\n").unwrap();
    let head = shortcut_strip("  Спс ", &s);
    assert_eq!(head.len(), 2);
    assert_eq!(head[0].form, "спасибо");
    assert_eq!(head[0].slot, None);
    assert_eq!(head[1].form, "спасибки");
    let full = extend_strip(head, vec![cand("спасибо", "спасибо", 0), cand("спс", "спс", 1)], 3);
    assert_eq!(full.len(), 3);
    assert_eq!(full[2].form, "спс");
    assert_eq!(full[2].slot, Some(1));
}

#[test]
fn extend_stops_at_the_limit() {
    let out = extend_strip(Vec::new(), vec![cand("а", "а", 0), cand("б", "б", 1), cand("в", "в", 2)], 2);
    assert_eq!(out.len(), 2);
    assert_eq!(out[1].form, "б");
}

#[test]
fn masking_offers_a_twin_and_dedups_twins() {
    let m = Masker::from_list_str("блядь\nблять\n").unwrap();
    let items = vec![cand("блять", "блять", 0), cand("блядь", "блядь", 1), cand("привет", "привет", 2)];
    let out = mask_strip(items.clone(), 10, true, &m);
    let forms: Vec<&str> = out.iter().map(|c| c.form.as_str()).collect();
    assert_eq!(forms, vec!["блять", "бл@#ь", "блядь", "привет"]);
    assert_eq!(out[1].lemma, "бл@#ь");
    assert_eq!(out[1].slot, Some(0));
    // Off: only the cap applies.
    let off = mask_strip(items, 2, false, &m);
    assert_eq!(off.len(), 2);
    assert_eq!(off[1].form, "блядь");
}

#[test]
fn masking_gate_follows_the_window_tone() {
    let m = Masker::from_list_str("хрень\n").unwrap();
    assert!(!masking_active(false, false, &m, true, Register::Neutral));
    assert!(masking_active(true, false, &m, false, Register::Crude));
    assert!(!masking_active(true, true, &m, false, Register::Crude));
    assert!(masking_active(true, true, &m, false, Register::Polite));
    assert!(masking_active(true, true, &m, true, Register::Neutral));
    assert!(!masking_active(true, false, &Masker::default(), true, Register::Polite));
}

#[test]
fn groups_have_one_leader_per_lemma() {
    let s = Shortcuts::from_tsv_str("чел\tчеловек\nчел\tчеловека\tчеловек\n").unwrap();
    let lead = shortcut_leaders("чел", &s, 3);
    assert_eq!(lead.len(), 1);
    let all = extend_leaders(
        lead,
        vec![cand("человеку", "Человек", 0), cand("челнок", "челнок", 1), cand("чело", "чело", 2)],
        2,
    );
    let forms: Vec<&str> = all.iter().map(|c| c.form.as_str()).collect();
    assert_eq!(forms, vec!["человек", "челнок"]);
}

#[test]
fn masked_groups_insert_single_form_twins() {
    let m = Masker::from_list_str("долбоёб\n").unwrap();
    let g = GroupCandidate {
        lemma: "долбоёб".to_string(),
        best: cand("долбоёб", "долбоёб", 4),
        variants: vec!["долбоёба".to_string()],
    };
    let out = mask_groups(vec![g], 5, true, &m);
    assert_eq!(out.len(), 2);
    assert_eq!(out[1].lemma, "дол@#&б");
    assert_eq!(out[1].best.slot, Some(4));
    assert!(out[1].variants.is_empty());
    let v = variants_without(vec!["а".to_string(), "б".to_string(), "а".to_string()], "а");
    assert_eq!(v, vec!["б"]);
}
