use ref_mining_evaluation::{Comparator, CompareError, Position, Range, Relation};

fn pos(file: &str, offset: usize, len: usize) -> Position {
    Position { file: file.to_string(), offset, len, typ: None }
}

fn rel(decl: Position, refs: Vec<Position>) -> Relation {
    Relation { decl, duration: None, search: None, refs }
}

#[test]
fn matched_declaration_splits_references() {
    // Baseline finds (f,0,5) and (f,10,3); the evaluated run finds (f,0,5)
    // and (f,20,2): one exact match, one reference on each side.
    let baseline = vec![rel(pos("d", 1, 2), vec![pos("f", 0, 5), pos("f", 10, 3)])];
    let evaluated = vec![rel(pos("d", 1, 2), vec![pos("f", 0, 5), pos("f", 20, 2)])];
    let c = Comparator::default().compare(baseline, evaluated).unwrap();
    assert_eq!(c.exact.len(), 1);
    assert!(c.left.is_empty());
    assert!(c.right.is_empty());
    let cm = &c.exact[0];
    assert_eq!(cm.decl.file, "d");
    assert_eq!(cm.exact.len(), 1);
    assert_eq!((cm.exact[0].offset, cm.exact[0].len), (0, 5));
    assert_eq!(cm.left.len(), 1);
    assert_eq!((cm.left[0].offset, cm.left[0].len), (10, 3));
    assert_eq!(cm.right.len(), 1);
    assert_eq!((cm.right[0].offset, cm.right[0].len), (20, 2));
    assert_eq!(cm.per_file.len(), 1);
    assert_eq!(cm.per_file[0].file, "f");
    assert_eq!(cm.per_file[0].left, vec![Range { offset: 10, len: 3 }]);
    assert_eq!(cm.per_file[0].right, vec![Range { offset: 20, len: 2 }]);
    assert!(cm.left_contained.is_empty());
    assert!(cm.right_contained.is_empty());
}

#[test]
fn baseline_only_declaration_lands_left() {
    let baseline = vec![rel(pos("d2", 3, 4), vec![pos("f", 0, 5)])];
    let evaluated = vec![];
    let c = Comparator::default().compare(baseline, evaluated).unwrap();
    assert!(c.exact.is_empty());
    assert!(c.right.is_empty());
    assert_eq!(c.left.len(), 1);
    assert_eq!(c.left[0].decl.file, "d2");
    assert_eq!(c.left[0].refs.len(), 1);
    assert_eq!(c.left[0].refs[0].offset, 0);
}

#[test]
fn identical_reference_sets_leave_no_differences() {
    let refs = || vec![pos("f", 0, 5), pos("f", 10, 3)];
    let baseline = vec![rel(pos("d", 1, 2), refs())];
    let evaluated = vec![rel(pos("d", 1, 2), refs())];
    for il in [false, true] {
        let baseline = vec![rel(pos("d", 1, 2), refs())];
        let evaluated = vec![rel(pos("d", 1, 2), refs())];
        let c = Comparator::default()
            .set_intersection_left(il)
            .compare(baseline, evaluated)
            .unwrap();
        let cm = &c.exact[0];
        assert_eq!(cm.exact.len(), 2);
        assert!(cm.left.is_empty());
        assert!(cm.right.is_empty());
        assert!(cm.per_file.is_empty());
    }
    let _ = (baseline, evaluated);
}

#[test]
fn duration_pair_absent_only_when_neither_side_reports() {
    let baseline = vec![rel(pos("d", 1, 2), vec![])];
    let evaluated = vec![rel(pos("d", 1, 2), vec![])];
    let c = Comparator::default().compare(baseline, evaluated).unwrap();
    assert!(c.exact[0].duration.is_none());

    let baseline = vec![rel(pos("d", 1, 2), vec![])];
    let mut r = rel(pos("d", 1, 2), vec![]);
    r.duration = Some(7);
    let c = Comparator::default().compare(baseline, vec![r]).unwrap();
    let d = c.exact[0].duration.as_ref().unwrap();
    assert_eq!(d.baseline, 0);
    assert_eq!(d.evaluated, 7);
}

#[test]
fn duplicate_declaration_key_is_fatal() {
    let baseline = vec![
        rel(pos("d", 1, 2), vec![]),
        rel(pos("d", 1, 2), vec![pos("f", 0, 1)]),
    ];
    let evaluated = vec![];
    let e = Comparator::default().compare(baseline, evaluated).unwrap_err();
    assert_eq!(e, CompareError::DuplicateDeclaration);
}

#[test]
fn normalization_moves_tag_into_search_label() {
    let mut decl = pos("d", 1, 2);
    decl.typ = Some("type".to_string());
    let baseline = vec![rel(decl, vec![])];
    let c = Comparator::default().compare(baseline, vec![]).unwrap();
    assert_eq!(c.left[0].search.as_deref(), Some("type"));
    assert!(c.left[0].decl.typ.is_none());
}

#[test]
fn normalization_clears_tag_when_search_present() {
    let mut decl = pos("d", 1, 2);
    decl.typ = Some("type".to_string());
    let mut r = rel(decl, vec![]);
    r.search = Some("method".to_string());
    let c = Comparator::default().compare(vec![r], vec![]).unwrap();
    assert_eq!(c.left[0].search.as_deref(), Some("method"));
    assert!(c.left[0].decl.typ.is_none());
}

#[test]
fn tag_never_takes_part_in_identity() {
    // The same declaration key with different tags still matches.
    let mut d1 = pos("d", 1, 2);
    d1.typ = Some("type".to_string());
    let d2 = pos("d", 1, 2);
    let c = Comparator::default()
        .compare(vec![rel(d1, vec![])], vec![rel(d2, vec![])])
        .unwrap();
    assert_eq!(c.exact.len(), 1);
    assert!(c.left.is_empty() && c.right.is_empty());
}

#[test]
fn intersection_left_drops_evaluated_only_files() {
    // File g holds only evaluated-side extras: kept without the filter,
    // dropped with it.
    let baseline = vec![rel(pos("d", 1, 2), vec![pos("f", 0, 5), pos("f", 10, 3)])];
    let evaluated = vec![rel(pos("d", 1, 2), vec![pos("f", 0, 5), pos("g", 4, 4)])];
    let c = Comparator::default()
        .set_intersection_left(false)
        .compare(baseline, evaluated)
        .unwrap();
    let files: Vec<&str> = c.exact[0].per_file.iter().map(|e| e.file.as_str()).collect();
    assert!(files.contains(&"f") && files.contains(&"g"));

    let baseline = vec![rel(pos("d", 1, 2), vec![pos("f", 0, 5), pos("f", 10, 3)])];
    let evaluated = vec![rel(pos("d", 1, 2), vec![pos("f", 0, 5), pos("g", 4, 4)])];
    let c = Comparator::default()
        .set_intersection_left(true)
        .compare(baseline, evaluated)
        .unwrap();
    let files: Vec<&str> = c.exact[0].per_file.iter().map(|e| e.file.as_str()).collect();
    assert!(files.contains(&"f") && !files.contains(&"g"));
    for e in &c.exact[0].per_file {
        assert!(!e.left.is_empty());
    }
}

#[test]
fn duplicate_references_collapse_before_matching() {
    // The baseline lists one reference twice: it still matches once.
    let baseline = vec![rel(pos("d", 1, 2), vec![pos("f", 0, 5), pos("f", 0, 5)])];
    let evaluated = vec![rel(pos("d", 1, 2), vec![pos("f", 0, 5)])];
    let c = Comparator::default().compare(baseline, evaluated).unwrap();
    let cm = &c.exact[0];
    assert_eq!(cm.exact.len(), 1);
    assert!(cm.left.is_empty());
    assert!(cm.right.is_empty());
}

#[test]
fn range_round_trip() {
    let p = pos("f", 8, 2);
    let r = Range::from(p);
    assert_eq!(r, Range { offset: 8, len: 2 });
    let back = r.with("f".to_string());
    assert_eq!(back.file, "f");
    assert_eq!(back.offset, 8);
    assert_eq!(back.len, 2);
    assert!(back.typ.is_none());
}

#[test]
fn comparator_configuration() {
    let c = Comparator::default();
    assert!(!c.intersection_left);
    let c = c.set_intersection_left(true);
    assert!(c.intersection_left);
}

#[test]
fn swapping_runs_swaps_sides() {
    let baseline = vec![
        rel(pos("d", 1, 2), vec![pos("f", 0, 5), pos("f", 10, 3)]),
        rel(pos("only", 9, 9), vec![]),
    ];
    let evaluated = vec![rel(pos("d", 1, 2), vec![pos("f", 0, 5), pos("f", 20, 2)])];
    let c1 = Comparator::default()
        .compare(baseline.clone_for_test(), evaluated.clone_for_test())
        .unwrap();
    let c2 = Comparator::default().compare(evaluated, baseline).unwrap();
    assert_eq!(c1.left.len(), c2.right.len());
    assert_eq!(c1.right.len(), c2.left.len());
    let m1 = &c1.exact[0];
    let m2 = &c2.exact[0];
    assert_eq!(m1.left.len(), m2.right.len());
    assert_eq!(m1.right.len(), m2.left.len());
    assert_eq!(m1.left[0].offset, m2.right[0].offset);
}

trait CloneForTest {
    fn clone_for_test(&self) -> Self;
}

impl CloneForTest for Vec<Relation> {
    fn clone_for_test(&self) -> Self {
        self.iter()
            .map(|r| Relation {
                decl: r.decl.duplicate(),
                duration: r.duration,
                search: r.search.clone(),
                refs: r.refs.iter().map(|p| p.duplicate()).collect(),
            })
            .collect()
    }
}
