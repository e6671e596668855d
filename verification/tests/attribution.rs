use pg_rules::morph::{attribute_morphs, owning_morph, MorphRecord, MorphStatus, Origin};

fn rec(allomorph: u32, morpheme: u32, order: u32, status: MorphStatus) -> MorphRecord {
    MorphRecord { allomorph, morpheme, order, passed_over: None, status, runtime_root: None }
}

fn affix_rec(allomorph: u32, morpheme: u32, order: u32, parts: &[u16], status: MorphStatus) -> MorphRecord {
    MorphRecord { allomorph, morpheme, order, passed_over: Some(parts.to_vec()), status, runtime_root: None }
}

#[test]
fn owning_morph_takes_the_real_record_with_the_largest_order_at_or_before_the_node() {
    let morphs = vec![
        rec(1, 10, 0, MorphStatus::Real),
        rec(2, 20, 3, MorphStatus::Real),
        rec(3, 30, 3, MorphStatus::SubsumedChild),
        rec(4, 40, 5, MorphStatus::Real),
    ];
    assert_eq!(owning_morph(&morphs, 0), Some(0));
    assert_eq!(owning_morph(&morphs, 4), Some(1));
    assert_eq!(owning_morph(&morphs, 5), Some(3));
    assert_eq!(owning_morph(&morphs, 100), Some(3));
}

#[test]
fn owning_morph_is_none_before_the_first_real_record() {
    let morphs = vec![rec(1, 10, 2, MorphStatus::Real), rec(2, 20, 0, MorphStatus::Floating)];
    assert_eq!(owning_morph(&morphs, 1), None);
    assert_eq!(owning_morph(&morphs, 2), Some(0));
    assert_eq!(owning_morph(&[], 7), None);
}

#[test]
fn suffix_gets_its_own_record_after_the_stem() {
    let head = vec![rec(10, 100, 0, MorphStatus::Real)];
    let origins = [Origin::Head(0), Origin::Head(1), Origin::Head(2), Origin::Affix, Origin::Affix];
    let out = attribute_morphs(&origins, &head, None, Some((20, 200, &[1u16][..])));
    assert_eq!(out, vec![rec(10, 100, 0, MorphStatus::Real), affix_rec(20, 200, 3, &[1], MorphStatus::Real)]);
}

#[test]
fn an_infix_splits_the_stem_into_two_records() {
    let head = vec![rec(10, 100, 0, MorphStatus::Real)];
    let origins = [Origin::Head(0), Origin::Affix, Origin::Head(1)];
    let out = attribute_morphs(&origins, &head, None, Some((20, 200, &[][..])));
    assert_eq!(
        out,
        vec![
            rec(10, 100, 0, MorphStatus::Real),
            affix_rec(20, 200, 1, &[], MorphStatus::Real),
            rec(10, 100, 2, MorphStatus::Real),
        ]
    );
}

#[test]
fn dropped_morphs_and_floaters_subsume_onto_the_affix() {
    let head = vec![
        rec(1, 10, 0, MorphStatus::Real),
        rec(2, 20, 2, MorphStatus::Real),
        rec(3, 30, u32::MAX, MorphStatus::Floating),
        rec(4, 40, 2, MorphStatus::SubsumedChild),
    ];
    let origins = [Origin::Head(0), Origin::Head(1), Origin::Affix, Origin::Affix];
    let out = attribute_morphs(&origins, &head, None, Some((9, 90, &[7u16][..])));
    assert_eq!(
        out,
        vec![
            rec(1, 10, 0, MorphStatus::Real),
            rec(2, 20, 2, MorphStatus::SubsumedChild),
            rec(4, 40, 2, MorphStatus::SubsumedChild),
            rec(3, 30, 2, MorphStatus::SubsumedChild),
            affix_rec(9, 90, 2, &[7], MorphStatus::Real),
        ]
    );
}

#[test]
fn pure_truncation_anchors_at_the_first_node_and_mints_a_floater() {
    let head = vec![
        rec(1, 10, 0, MorphStatus::Real),
        rec(2, 20, 1, MorphStatus::Real),
        rec(3, 30, u32::MAX, MorphStatus::Floating),
    ];
    let origins = [Origin::Head(1)];
    let out = attribute_morphs(&origins, &head, None, Some((5, 50, &[][..])));
    assert_eq!(
        out,
        vec![
            rec(1, 10, 0, MorphStatus::SubsumedFirst),
            rec(2, 20, 0, MorphStatus::Real),
            rec(3, 30, u32::MAX, MorphStatus::Floating),
            affix_rec(5, 50, u32::MAX, &[], MorphStatus::Floating),
        ]
    );
}

#[test]
fn truncation_to_nothing_mints_no_floater() {
    let head = vec![rec(1, 10, 0, MorphStatus::Real), rec(4, 40, 0, MorphStatus::SubsumedChild)];
    let out = attribute_morphs(&[], &head, None, Some((5, 50, &[][..])));
    assert_eq!(out, Vec::<MorphRecord>::new());
}

#[test]
fn compounding_drops_untouched_morphs_and_keeps_only_real_records() {
    let head = vec![rec(1, 10, 0, MorphStatus::Real), rec(2, 20, 2, MorphStatus::Real)];
    let non_head = vec![rec(7, 70, 0, MorphStatus::Real)];
    let origins = [Origin::Head(0), Origin::Insert, Origin::NonHead(0), Origin::NonHead(1)];
    let out = attribute_morphs(&origins, &head, Some(&non_head[..]), None);
    assert_eq!(out, vec![rec(1, 10, 0, MorphStatus::Real), rec(7, 70, 2, MorphStatus::Real)]);
    assert!(out.iter().all(|m| m.status == MorphStatus::Real));
}

#[test]
fn affix_material_without_an_affix_belongs_to_no_morph() {
    let head = vec![rec(1, 10, 0, MorphStatus::Real)];
    let origins = [Origin::Affix, Origin::Head(0)];
    let out = attribute_morphs(&origins, &head, None, None);
    assert_eq!(out, vec![rec(1, 10, 1, MorphStatus::Real)]);
}
