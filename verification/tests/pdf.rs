use std::collections::hash_map::DefaultHasher;
use std::hash::Hash;
use std::hash::Hasher;

use simple_pdf_viewer::annotations::NormalizedRect;
use simple_pdf_viewer::float::Real32;
use simple_pdf_viewer::float::Real64;
use simple_pdf_viewer::pdf::hash_in_order;
use simple_pdf_viewer::pdf::inspect_pages;
use simple_pdf_viewer::pdf::load_error;
use simple_pdf_viewer::pdf::page_count;
use simple_pdf_viewer::pdf::page_response;
use simple_pdf_viewer::pdf::preview_response;
use simple_pdf_viewer::pdf::puts_lowest_first;
use simple_pdf_viewer::pdf::render_cache_hash;
use simple_pdf_viewer::pdf::selection_response;
use simple_pdf_viewer::pdf::Destination;
use simple_pdf_viewer::pdf::DocumentInfo;
use simple_pdf_viewer::pdf::LinkRegion;
use simple_pdf_viewer::pdf::LinkTarget;
use simple_pdf_viewer::pdf::LoadStage;
use simple_pdf_viewer::pdf::PdfCommand;
use simple_pdf_viewer::pdf::PdfResponse;
use simple_pdf_viewer::pdf::PreviewKey;
use simple_pdf_viewer::pdf::RenderedImage;
use simple_pdf_viewer::pdf::Worker;
use simple_pdf_viewer::pdf::WorkerTask;

fn single(value: f32) -> Real32 {
    Real32 { bits: value.to_bits() }
}

fn double(value: f64) -> Real64 {
    Real64 { bits: value.to_bits() }
}

fn place(page_index: usize, x: f32, y: f32) -> Destination {
    Destination { page_index, x: Some(single(x)), y_from_top: Some(single(y)) }
}

fn info() -> DocumentInfo {
    DocumentInfo {
        path: b"/a.pdf".to_vec(),
        title: None,
        fingerprint: "f".into(),
        page_sizes: vec![[single(1.0), single(2.0)]],
    }
}

fn image() -> RenderedImage {
    RenderedImage { width: 1, height: 1, rgba: vec![1, 2, 3, 4] }
}

#[test]
fn preview_keys_are_stable_and_quantized() {
    let first = PreviewKey::for_destination(&Destination {
        page_index: 4,
        x: Some(single(10.01)),
        y_from_top: Some(single(20.01)),
    });
    let second = PreviewKey::for_destination(&Destination {
        page_index: 4,
        x: Some(single(10.02)),
        y_from_top: Some(single(20.02)),
    });
    assert_eq!(first, second);
}

#[test]
fn preview_keys_have_exact_values() {
    let key = PreviewKey::for_destination(&place(4, 10.26, -0.2));
    assert_eq!((key.page_index, key.x_bucket, key.y_bucket), (4, 21, 0));
    let whole = PreviewKey::for_destination(&Destination {
        page_index: 7,
        x: None,
        y_from_top: None,
    });
    assert_eq!((whole.page_index, whole.x_bucket, whole.y_bucket), (7, -1, -1));
    let far = PreviewKey::for_destination(&place(0, f32::INFINITY, f32::NAN));
    assert_eq!((far.x_bucket, far.y_bucket), (i32::MAX, 0));
}

#[test]
fn cache_names_are_hashed_like_the_values() {
    for (page_index, pixel_size) in [(0, [0, 0]), (3, [640, 480]), (usize::MAX, [1, usize::MAX])] {
        let mut hasher = DefaultHasher::new();
        page_index.hash(&mut hasher);
        pixel_size.hash(&mut hasher);
        assert_eq!(render_cache_hash(page_index, pixel_size), hasher.finish());
    }
}

#[test]
fn cache_names_follow_the_order_of_bytes() {
    let numbers = [3_usize, 2, 640, 480];
    let hashed = |bytes: [Vec<u8>; 4]| {
        let [page, count, width, height] = bytes;
        let mut hasher = DefaultHasher::new();
        hasher.write(&page);
        hasher.write(&count);
        hasher.write(&[width, height].concat());
        hasher.finish()
    };
    let first = hashed(numbers.map(|number| number.to_le_bytes().to_vec()));
    let last = hashed(numbers.map(|number| number.to_be_bytes().to_vec()));
    assert_eq!(hash_in_order(3, [640, 480], true), first);
    assert_eq!(hash_in_order(3, [640, 480], false), last);
    assert_ne!(first, last);
    assert!(puts_lowest_first(&1_usize.to_le_bytes()));
    assert!(!puts_lowest_first(&1_usize.to_be_bytes()));
}

#[test]
fn links_are_compared_as_numbers() {
    let rect = |x: f32| NormalizedRect {
        x: single(x),
        y: single(0.0),
        width: single(1.0),
        height: single(1.0),
    };
    let link = |x: f32, uri: &str| LinkRegion { rect: rect(x), target: LinkTarget::Uri(uri.into()) };
    assert_eq!(rect(0.0), rect(-0.0));
    assert_ne!(rect(0.0), rect(0.5));
    assert_ne!(rect(f32::NAN), rect(f32::NAN));
    assert_eq!(link(0.0, "a"), link(-0.0, "a"));
    assert_ne!(link(0.0, "a"), link(0.0, "b"));
    assert_ne!(link(0.0, "a"), link(0.5, "a"));
    let page = |x| Destination { page_index: 1, x, y_from_top: None };
    assert_eq!(page(Some(single(0.0))), page(Some(single(-0.0))));
    assert_eq!(page(None), page(None));
    assert_ne!(page(None), page(Some(single(0.0))));
    assert_ne!(page(Some(single(f32::NAN))), page(Some(single(f32::NAN))));
}

#[test]
fn targets_are_compared_as_numbers() {
    let a = LinkTarget::Internal(place(1, 0.0, 2.0));
    let b = LinkTarget::Internal(place(1, -0.0, 2.0));
    assert_eq!(a, b);
    assert_ne!(a, LinkTarget::Internal(place(2, 0.0, 2.0)));
    let unknown = LinkTarget::Internal(place(1, f32::NAN, 2.0));
    assert_ne!(unknown, unknown.clone());
    let uri = LinkTarget::Uri("https://a".into());
    assert_eq!(uri, uri.clone());
    assert_ne!(uri, a);
}

#[test]
fn the_renderer_works_for_the_open_document_only() {
    let mut worker: Worker<&str> = Worker::new();
    let page = |generation| PdfCommand::RenderPage {
        generation,
        page_index: 0,
        pixel_size: [1, 1],
    };
    assert!(matches!(worker.accept(page(1)), WorkerTask::Ignore));
    assert!(matches!(
        worker.accept(PdfCommand::Load { generation: 1, path: Vec::new() }),
        WorkerTask::Perform(PdfCommand::Load { generation: 1, .. })
    ));
    let response = worker.finish_load(1, b"a.pdf".to_vec(), Ok(("one", info())));
    assert!(matches!(response, PdfResponse::Loaded { generation: 1, .. }));
    assert_eq!(worker.loaded, Some((1, "one")));
    assert!(matches!(
        worker.accept(page(1)),
        WorkerTask::Perform(PdfCommand::RenderPage { generation: 1, .. })
    ));
    assert!(matches!(worker.accept(page(2)), WorkerTask::Ignore));
    assert!(matches!(
        worker.accept(PdfCommand::render_preview(2, place(0, 0.0, 0.0), single(1.0))),
        WorkerTask::Ignore
    ));
    assert!(matches!(worker.accept(PdfCommand::Quit), WorkerTask::Stop));
}

#[test]
fn a_failed_opening_keeps_the_document_before_it() {
    let mut worker: Worker<&str> = Worker::new();
    worker.finish_load(1, b"a.pdf".to_vec(), Ok(("one", info())));
    let response = worker.finish_load(2, b"b.pdf".to_vec(), Err("broken".into()));
    match response {
        PdfResponse::LoadFailed { generation, path, error } => {
            assert_eq!((generation, path, error), (2, b"b.pdf".to_vec(), "broken".to_owned()));
        }
        other => panic!("{other:?}"),
    }
    assert_eq!(worker.loaded, Some((1, "one")));
}

#[test]
fn previews_are_asked_for_under_their_key() {
    match PdfCommand::render_preview(5, place(2, 10.0, 20.0), single(1.5)) {
        PdfCommand::RenderPreview { generation, destination, key, pixels_per_point } => {
            assert_eq!(generation, 5);
            assert_eq!(key, PreviewKey::for_destination(&destination));
            assert_eq!(pixels_per_point, single(1.5));
        }
        other => panic!("{other:?}"),
    }
}

#[test]
fn failures_say_what_was_asked_for() {
    fn failure(response: PdfResponse) -> (u64, &'static str, String) {
        match response {
            PdfResponse::OperationFailed { generation, operation, error } => {
                (generation, operation, error)
            }
            other => panic!("{other:?}"),
        }
    }
    let key = PreviewKey::for_destination(&place(0, 0.0, 0.0));
    assert_eq!(
        failure(page_response(3, 9, [1, 1], None)),
        (3, "render page", "page does not exist".to_owned())
    );
    assert_eq!(
        failure(page_response(3, 9, [1, 1], Some(Err("no memory".into())))),
        (3, "render page", "no memory".to_owned())
    );
    assert_eq!(
        failure(preview_response(3, key, None)),
        (3, "render preview", "preview destination page does not exist".to_owned())
    );
    assert_eq!(
        failure(preview_response(3, key, Some(Err("x".into())))),
        (3, "render preview", "x".to_owned())
    );
    assert_eq!(
        failure(selection_response(3, 1, 9, None)),
        (3, "select text", "selection page does not exist".to_owned())
    );
}

#[test]
fn answers_carry_what_was_made() {
    assert!(matches!(
        page_response(3, 9, [5, 6], Some(Ok((image(), Vec::new())))),
        PdfResponse::PageRendered { generation: 3, page_index: 9, pixel_size: [5, 6], .. }
    ));
    let key = PreviewKey::for_destination(&place(0, 0.0, 0.0));
    match preview_response(3, key, Some(Ok(image()))) {
        PdfResponse::PreviewRendered { generation, key: k, image } => {
            assert_eq!((generation, k, image.rgba), (3, key, vec![1, 2, 3, 4]));
        }
        other => panic!("{other:?}"),
    }
    let rects = vec![NormalizedRect::default()];
    match selection_response(3, 8, 1, Some(("text".into(), rects.clone()))) {
        PdfResponse::SelectionResolved { generation, request_id, page_index, text, rects: r } => {
            assert_eq!((generation, request_id, page_index), (3, 8, 1));
            assert_eq!((text, r), ("text".to_owned(), rects));
        }
        other => panic!("{other:?}"),
    }
}

#[test]
fn every_page_of_a_document_is_looked_at() {
    assert_eq!(inspect_pages(&Vec::new()), Err("the PDF has no pages".to_owned()));
    let size = Some([double(595.276), double(841.89)]);
    assert_eq!(
        inspect_pages(&vec![size, None, None]),
        Err("could not inspect page 2".to_owned())
    );
    assert_eq!(
        inspect_pages(&vec![size, size]),
        Ok(vec![[single(595.276), single(841.89)]; 2])
    );
    assert_eq!((page_count(-3), page_count(0), page_count(12)), (0, 0, 12));
}

#[test]
fn each_stage_of_opening_has_its_message() {
    assert_eq!(
        load_error(LoadStage::Locate, b"/a.pdf", "gone"),
        "could not open /a.pdf: gone"
    );
    assert_eq!(load_error(LoadStage::Name, b"", "x"), "could not convert path to URI: x");
    assert_eq!(load_error(LoadStage::Open, b"", "x"), "Poppler could not open the PDF: x");
    assert_eq!(
        load_error(LoadStage::Fingerprint, b"", "x"),
        "could not fingerprint the PDF: x"
    );
}
