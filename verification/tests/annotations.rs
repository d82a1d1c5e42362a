use simple_pdf_viewer::annotations::valid_annotations;
use simple_pdf_viewer::annotations::Annotation;
use simple_pdf_viewer::annotations::AnnotationFile;
use simple_pdf_viewer::annotations::AnnotationStore;
use simple_pdf_viewer::annotations::LoadWarning;
use simple_pdf_viewer::annotations::NormalizedRect;
use simple_pdf_viewer::annotations::SaveAction;
use simple_pdf_viewer::annotations::SaveEvent;
use simple_pdf_viewer::annotations::Sidecar;
use simple_pdf_viewer::annotations::SCHEMA_VERSION;
use simple_pdf_viewer::float::Real32;

fn single(value: f32) -> Real32 {
    Real32 { bits: value.to_bits() }
}

fn float(value: Real32) -> f32 {
    f32::from_bits(value.bits)
}

fn rect(x: f32, y: f32, width: f32, height: f32) -> NormalizedRect {
    NormalizedRect { x: single(x), y: single(y), width: single(width), height: single(height) }
}

fn note(id: u64, page_index: usize) -> Annotation {
    Annotation {
        id,
        page_index,
        rects: vec![rect(0.1, 0.1, 0.2, 0.1)],
        selected_text: "hello".into(),
        note: String::new(),
    }
}

fn file(annotations: Vec<Annotation>) -> AnnotationFile {
    AnnotationFile {
        schema_version: SCHEMA_VERSION,
        document_fingerprint: "abc123".into(),
        annotations,
    }
}

fn load(sidecar: Sidecar) -> (AnnotationStore, Option<LoadWarning>) {
    AnnotationStore::load(b"/books/a.pdf", "abc123".into(), 3, sidecar)
}

#[test]
fn normalized_rect_orders_points_and_hit_tests() {
    let rect = NormalizedRect::from_points(
        [single(0.8), single(0.7)],
        [single(0.2), single(0.3)],
    );
    assert!((float(rect.x) - 0.2).abs() < f32::EPSILON);
    assert!((float(rect.y) - 0.3).abs() < f32::EPSILON);
    assert!((float(rect.width) - 0.6).abs() < f32::EPSILON);
    assert!((float(rect.height) - 0.4).abs() < f32::EPSILON);
    assert!(rect.contains([single(0.5), single(0.5)]));
    assert!(!rect.contains([single(0.1), single(0.5)]));
}

#[test]
fn rejects_duplicate_ids_and_bad_coordinates() {
    let annotation = Annotation {
        id: 1,
        page_index: 0,
        rects: vec![NormalizedRect {
            x: single(0.1),
            y: single(0.1),
            width: single(0.2),
            height: single(0.1),
        }],
        selected_text: "hello".into(),
        note: String::new(),
    };
    assert!(valid_annotations(std::slice::from_ref(&annotation), 1));
    assert!(!valid_annotations(&[annotation.clone(), annotation], 1));
}

#[test]
fn dragging_either_way_spans_the_same_rectangle() {
    let a = [single(0.8), single(0.1)];
    let b = [single(0.25), single(0.9)];
    assert_eq!(NormalizedRect::from_points(a, b), NormalizedRect::from_points(b, a));
}

#[test]
fn each_fault_of_an_annotation_is_found() {
    assert!(valid_annotations(&[], 0));
    assert!(!valid_annotations(&[note(0, 0)], 1));
    assert!(!valid_annotations(&[note(1, 1)], 1));
    let mut without_rects = note(1, 0);
    without_rects.rects.clear();
    assert!(!valid_annotations(&[without_rects], 1));
    for bad in [
        rect(-0.1, 0.1, 0.2, 0.1),
        rect(0.1, 0.1, 0.0, 0.1),
        rect(0.1, 0.1, 0.2, -0.1),
        rect(0.9, 0.1, 0.2, 0.1),
        rect(0.1, f32::NAN, 0.2, 0.1),
        rect(0.1, 0.1, f32::INFINITY, 0.1),
    ] {
        let mut annotation = note(1, 0);
        annotation.rects.push(bad);
        assert!(!valid_annotations(&[annotation], 1));
    }
    let mut edge = note(1, 0);
    edge.rects = vec![rect(0.5, 0.5, 0.501, 0.5)];
    assert!(valid_annotations(&[edge], 1));
    let mut long = note(1, 0);
    long.note = "x".repeat(1_000_000);
    assert!(valid_annotations(&[long.clone()], 1));
    long.note.push('x');
    assert!(!valid_annotations(&[long], 1));
}

#[test]
fn a_missing_sidecar_is_no_reason_to_warn() {
    let (store, warning) = load(Sidecar::Missing);
    assert!(warning.is_none());
    assert!(store.annotations().is_empty());
    assert!(!store.is_dirty());
}

#[test]
fn each_warning_has_its_reason() {
    let (_, warning) = load(Sidecar::Unreadable("denied".into()));
    assert_eq!(
        warning.unwrap().message(),
        "could not read annotation sidecar: denied"
    );
    let (_, warning) = load(Sidecar::Malformed("eof".into()));
    assert_eq!(warning.unwrap().message(), "could not parse annotation sidecar: eof");
    let mut other_schema = file(vec![note(1, 0)]);
    other_schema.schema_version = 2;
    other_schema.document_fingerprint = "else".into();
    let (store, warning) = load(Sidecar::Present(other_schema));
    assert_eq!(
        warning.unwrap().message(),
        "annotation sidecar uses unsupported schema version 2"
    );
    assert!(store.annotations().is_empty());
    let mut other_document = file(vec![note(0, 9)]);
    other_document.document_fingerprint = "else".into();
    let (_, warning) = load(Sidecar::Present(other_document));
    assert_eq!(
        warning.unwrap().message(),
        "annotation sidecar belongs to a different version of this PDF"
    );
    let (_, warning) = load(Sidecar::Present(file(vec![note(1, 3)])));
    assert_eq!(
        warning.unwrap().message(),
        "annotation sidecar contains invalid annotation data"
    );
}

#[test]
fn new_ids_follow_the_largest_loaded_one() {
    let (mut store, warning) = load(Sidecar::Present(file(vec![note(8, 2), note(3, 0)])));
    assert!(warning.is_none());
    assert_eq!(store.annotations().len(), 2);
    assert_eq!(store.add(1, vec![rect(0.0, 0.0, 0.1, 0.1)], "text".into(), 5), 9);
    assert_eq!(store.add(1, Vec::new(), String::new(), 6), 10);
    assert_eq!(store.annotations()[2].selected_text, "text");
    assert_eq!(store.annotations()[2].note, "");
    assert!(store.is_dirty());
}

#[test]
fn ids_stop_at_the_largest_number() {
    let (mut store, _) = load(Sidecar::Present(file(vec![note(u64::MAX, 0)])));
    assert_eq!(store.add(0, Vec::new(), String::new(), 0), u64::MAX);
}

#[test]
fn removed_annotations_are_gone() {
    let (mut store, _) = load(Sidecar::Present(file(vec![note(1, 0), note(2, 1)])));
    assert!(!store.remove(7, 1));
    assert!(!store.is_dirty());
    assert!(store.remove(1, 1));
    assert!(store.is_dirty());
    assert_eq!(store.annotations().len(), 1);
    assert_eq!(store.annotations()[0].id, 2);
    assert!(store.annotation_mut(1).is_none());
}

#[test]
fn an_annotation_can_be_changed() {
    let (mut store, _) = load(Sidecar::Present(file(vec![note(1, 0), note(2, 1)])));
    store.annotation_mut(2).unwrap().note = "later".into();
    assert_eq!(store.annotations()[0].note, "");
    assert_eq!(store.annotations()[1].note, "later");
    assert!(!store.is_dirty());
    store.mark_dirty(4);
    assert!(store.is_dirty());
}

#[test]
fn a_save_waits_until_it_is_due() {
    let (mut store, _) = load(Sidecar::Missing);
    assert!(matches!(store.save_if_due(10, 100), SaveAction::Finish));
    store.mark_dirty(100);
    assert!(matches!(store.save_if_due(10, 109), SaveAction::Finish));
    assert!(matches!(store.save_if_due(10, 110), SaveAction::Write { .. }));
    assert!(store.is_dirty());
}

#[test]
fn a_save_replaces_the_sidecar_in_one_step() {
    let (mut store, _) = load(Sidecar::Missing);
    assert!(matches!(store.save(SaveEvent::Begin), SaveAction::Finish));
    let id = store.add(1, vec![rect(0.0, 0.0, 0.1, 0.1)], "text".into(), 5);
    match store.save(SaveEvent::Begin) {
        SaveAction::Write { path, file } => {
            assert_eq!(path, b"/books/a.pdf.spv.json.tmp");
            assert_eq!(file.schema_version, SCHEMA_VERSION);
            assert_eq!(file.document_fingerprint, "abc123");
            assert_eq!(file.annotations.len(), 1);
            assert_eq!(file.annotations[0].id, id);
            let (again, warning) = load(Sidecar::Present(file));
            assert!(warning.is_none());
            assert_eq!(again.annotations(), store.annotations());
        }
        other => panic!("{other:?}"),
    }
    match store.save(SaveEvent::Written) {
        SaveAction::Rename { from, to } => {
            assert_eq!(from, b"/books/a.pdf.spv.json.tmp");
            assert_eq!(to, b"/books/a.pdf.spv.json");
        }
        other => panic!("{other:?}"),
    }
    assert!(store.is_dirty());
    assert!(matches!(store.save(SaveEvent::Renamed), SaveAction::Finish));
    assert!(!store.is_dirty());
}

#[test]
fn a_refused_sidecar_is_copied_before_it_is_replaced() {
    let (mut store, _) = load(Sidecar::Malformed("eof".into()));
    store.mark_dirty(0);
    match store.save(SaveEvent::Begin) {
        SaveAction::LookForSidecar { path } => assert_eq!(path, b"/books/a.pdf.spv.json"),
        other => panic!("{other:?}"),
    }
    match store.save(SaveEvent::Sidecar { exists: true }) {
        SaveAction::LookForBackup { path } => assert_eq!(path, b"/books/a.pdf.spv.json.bak"),
        other => panic!("{other:?}"),
    }
    match store.save(SaveEvent::Backup { exists: false }) {
        SaveAction::Copy { from, to } => {
            assert_eq!(from, b"/books/a.pdf.spv.json");
            assert_eq!(to, b"/books/a.pdf.spv.json.bak");
        }
        other => panic!("{other:?}"),
    }
    assert!(matches!(store.save(SaveEvent::Copied), SaveAction::Write { .. }));
    assert!(matches!(store.save(SaveEvent::Written), SaveAction::Rename { .. }));
    assert!(matches!(store.save(SaveEvent::Renamed), SaveAction::Finish));
    store.mark_dirty(1);
    assert!(matches!(store.save(SaveEvent::Begin), SaveAction::Write { .. }));
}

#[test]
fn a_backup_that_exists_is_kept() {
    let (mut store, _) = load(Sidecar::Malformed("eof".into()));
    store.mark_dirty(0);
    store.save(SaveEvent::Begin);
    store.save(SaveEvent::Sidecar { exists: true });
    assert!(matches!(
        store.save(SaveEvent::Backup { exists: true }),
        SaveAction::Write { .. }
    ));
    assert!(matches!(store.save(SaveEvent::Begin), SaveAction::Write { .. }));
    let (mut gone, _) = load(Sidecar::Unreadable("gone".into()));
    gone.mark_dirty(0);
    gone.save(SaveEvent::Begin);
    assert!(matches!(
        gone.save(SaveEvent::Sidecar { exists: false }),
        SaveAction::Write { .. }
    ));
    assert!(matches!(gone.save(SaveEvent::Begin), SaveAction::LookForSidecar { .. }));
}

#[test]
fn annotations_are_compared_as_numbers() {
    let mut a = note(1, 0);
    let mut b = note(1, 0);
    assert_eq!(a, b);
    a.rects = vec![rect(0.0, 0.5, 0.25, 0.25)];
    b.rects = vec![rect(-0.0, 0.5, 0.25, 0.25)];
    assert_eq!(a, b);
    b.rects[0].width = single(0.5);
    assert_ne!(a, b);
    b.rects = Vec::new();
    assert_ne!(a, b);
    assert_ne!(a, note(2, 0));
    a.rects = vec![rect(f32::NAN, 0.5, 0.25, 0.25)];
    assert_ne!(a, a.clone());
    let mut c = note(1, 0);
    c.note.push('!');
    assert_ne!(c, note(1, 0));
}
