use simple_pdf_viewer::annotations::Annotation;
use simple_pdf_viewer::annotations::AnnotationFile;
use simple_pdf_viewer::annotations::NormalizedRect;
use simple_pdf_viewer::annotations::SaveAction;
use simple_pdf_viewer::annotations::SaveEvent;
use simple_pdf_viewer::annotations::Sidecar;
use simple_pdf_viewer::float::Real32;
use simple_pdf_viewer::geometry::RenderKey;
use simple_pdf_viewer::geometry::ScreenRect;
use simple_pdf_viewer::geometry::Vector;
use simple_pdf_viewer::geometry::ZoomMode;
use simple_pdf_viewer::pdf::Destination;
use simple_pdf_viewer::pdf::LinkRegion;
use simple_pdf_viewer::pdf::LinkTarget;
use simple_pdf_viewer::pdf::PdfCommand;
use simple_pdf_viewer::pdf::PdfResponse;
use simple_pdf_viewer::pdf::PreviewKey;
use simple_pdf_viewer::pdf::RenderedImage;
use simple_pdf_viewer::viewer::backend::BackendStep;
use simple_pdf_viewer::viewer::backend::LoadedDocument;
use simple_pdf_viewer::viewer::controls::is_compact;
use simple_pdf_viewer::viewer::controls::ShortcutInput;
use simple_pdf_viewer::viewer::controls::ToolbarEvent;
use simple_pdf_viewer::viewer::controls::ToolbarMessage;
use simple_pdf_viewer::viewer::drawing::CentralContent;
use simple_pdf_viewer::viewer::hover::HoverContent;
use simple_pdf_viewer::viewer::hover::HoverReply;
use simple_pdf_viewer::viewer::interaction::PageCursor;
use simple_pdf_viewer::viewer::interaction::PageInput;
use simple_pdf_viewer::viewer::interaction::SelectionMenu;
use simple_pdf_viewer::viewer::LayoutMode;
use simple_pdf_viewer::viewer::PdfViewerApp;
use simple_pdf_viewer::viewer::SelectionAction;
use simple_pdf_viewer::viewer::HOVER_DELAY;
use simple_pdf_viewer::viewer::RENDER_DEBOUNCE;
use simple_pdf_viewer::viewer::SAVE_DELAY;
use simple_pdf_viewer::viewer::STATUS_LIFETIME;

type App = PdfViewerApp<u32>;

fn single(value: f32) -> Real32 {
    Real32 { bits: value.to_bits() }
}

fn vector(x: f32, y: f32) -> Vector {
    Vector { x: single(x), y: single(y) }
}

fn rect(x: f32, y: f32, width: f32, height: f32) -> NormalizedRect {
    NormalizedRect { x: single(x), y: single(y), width: single(width), height: single(height) }
}

fn place(page_index: usize) -> Destination {
    Destination { page_index, x: Some(single(100.0)), y_from_top: Some(single(200.0)) }
}

fn image() -> RenderedImage {
    RenderedImage { width: 1, height: 1, rgba: vec![0; 4] }
}

fn document(generation: u64, pages: usize) -> LoadedDocument {
    LoadedDocument {
        generation,
        path: b"/books/a.pdf".to_vec(),
        title: None,
        fingerprint: "f".into(),
        page_sizes: vec![[single(600.0), single(800.0)]; pages],
    }
}

fn opened(pages: usize) -> App {
    let (mut app, _) = App::new(Some(b"/books/a.pdf".to_vec()), 0);
    app.show_document(document(1, pages), Sidecar::Missing, 0);
    app
}

fn keys() -> ShortcutInput {
    ShortcutInput {
        back: false,
        forward: false,
        zoom_in: false,
        zoom_out: false,
        zoom_reset: false,
        typing: false,
        page_up: false,
        page_down: false,
        home: false,
        end: false,
        left: false,
        right: false,
        up: false,
        down: false,
        control: false,
        zoom_delta: single(1.0),
    }
}

fn pointer() -> PageInput {
    PageInput {
        pointer: None,
        drag_started: false,
        dragged: false,
        drag_stopped: false,
        hovered: false,
        hover_pos: None,
        clicked: false,
    }
}

fn page_rect() -> ScreenRect {
    ScreenRect::placed(vector(0.0, 0.0), vector(600.0, 800.0))
}

fn status(app: &App) -> (&str, bool) {
    let status = app.status.as_ref().unwrap();
    (status.text.as_str(), status.is_error)
}

fn zoom(app: &App) -> f32 {
    match app.zoom {
        ZoomMode::Manual(factor) => f32::from_bits(factor.bits),
        other => panic!("{other:?}"),
    }
}

#[test]
fn a_viewer_begins_with_the_file_it_was_started_with() {
    let (app, command) = App::new(None, 3);
    assert!(command.is_none());
    assert_eq!((app.page_input.as_str(), app.render_due), ("1", 3));
    assert_eq!(app.zoom, ZoomMode::FitPage);
    assert_eq!(app.last_viewport, vector(900.0, 700.0));
    let (app, command) = App::new(Some(b"x.PDF".to_vec()), 0);
    assert!(matches!(command, Some(PdfCommand::Load { generation: 1, path }) if path == b"x.PDF"));
    assert_eq!(app.loading, Some((1, b"x.PDF".to_vec())));
    let (app, command) = App::new(Some(b"x.txt".to_vec()), 0);
    assert!(command.is_none());
    assert_eq!(status(&app), ("Please choose a PDF file.", true));
}

#[test]
fn each_opening_has_its_own_number() {
    let (mut app, _) = App::new(None, 0);
    for expected in 1..4 {
        match app.open_path(b"a.pdf".to_vec(), 0) {
            Some(PdfCommand::Load { generation, .. }) => assert_eq!(generation, expected),
            other => panic!("{other:?}"),
        }
    }
    app.next_generation = u64::MAX;
    app.open_path(b"a.pdf".to_vec(), 0);
    assert_eq!(app.next_generation, u64::MAX);
}

#[test]
fn a_document_is_shown_when_it_is_the_one_that_was_asked_for() {
    let (mut app, _) = App::new(Some(b"/books/a.pdf".to_vec()), 0);
    let loaded = |generation| PdfResponse::Loaded {
        generation,
        path: b"/books/a.pdf".to_vec(),
        title: Some(" A book ".into()),
        fingerprint: "f".into(),
        page_sizes: vec![[single(600.0), single(800.0)]; 2],
    };
    assert!(app.is_answer(&loaded(2)));
    assert!(matches!(app.process_backend(loaded(2), 1), BackendStep::Settled));
    assert!(app.document.is_none());
    match app.process_backend(loaded(1), 1) {
        BackendStep::ShowDocument(document) => {
            let title = app.show_document(document, Sidecar::Missing, 5);
            assert_eq!(title, " A book  — Simple PDF Viewer");
        }
        other => panic!("{other:?}"),
    }
    assert_eq!((app.page_count(), app.active_generation()), (2, Some(1)));
    assert_eq!(app.loading, None);
    assert_eq!(app.render_due, 5);
    assert_eq!(status(&app), ("Opened /books/a.pdf", false));
}

#[test]
fn windows_are_called_by_title_or_file() {
    let (mut app, _) = App::new(None, 0);
    assert_eq!(
        app.show_document(document(1, 1), Sidecar::Missing, 0),
        "a.pdf — Simple PDF Viewer"
    );
    let mut blank = document(2, 1);
    blank.title = Some(" \t".into());
    blank.path = b"/".to_vec();
    assert_eq!(
        app.show_document(blank, Sidecar::Malformed("eof".into()), 0),
        "PDF — Simple PDF Viewer"
    );
    assert_eq!(status(&app), ("could not parse annotation sidecar: eof", true));
}

#[test]
fn a_failed_opening_leaves_the_document() {
    let mut app = opened(3);
    app.open_path(b"/b.pdf".to_vec(), 0);
    let failed = |generation| PdfResponse::LoadFailed {
        generation,
        path: b"/b.pdf".to_vec(),
        error: "broken".into(),
    };
    app.process_backend(failed(9), 0);
    assert!(app.loading.is_some());
    app.process_backend(failed(2), 0);
    assert!(app.loading.is_none());
    assert_eq!(status(&app), ("Could not open /b.pdf: broken", true));
    assert_eq!(app.page_count(), 3);
}

#[test]
fn failures_of_the_open_document_are_told() {
    let mut app = opened(3);
    let failed = |generation| PdfResponse::OperationFailed {
        generation,
        operation: "render page",
        error: "no memory".into(),
    };
    app.process_backend(failed(7), 0);
    assert_eq!(status(&app), ("Opened /books/a.pdf", false));
    app.process_backend(failed(1), 0);
    assert_eq!(status(&app), ("Could not render page: no memory", true));
}

#[test]
fn answers_that_cannot_be_are_found() {
    let app = opened(3);
    let rendered = |generation, page_index| PdfResponse::PageRendered {
        generation,
        page_index: 0,
        pixel_size: [1, 1],
        image: image(),
        links: vec![LinkRegion {
            rect: rect(0.0, 0.0, 1.0, 1.0),
            target: LinkTarget::Internal(place(page_index)),
        }],
    };
    assert!(app.is_answer(&rendered(1, 2)));
    assert!(!app.is_answer(&rendered(1, 3)));
    assert!(app.is_answer(&rendered(2, 3)));
    let selected = |page_index| PdfResponse::SelectionResolved {
        generation: 1,
        request_id: 1,
        page_index,
        text: "t".into(),
        rects: Vec::new(),
    };
    assert!(app.is_answer(&selected(2)));
    assert!(!app.is_answer(&selected(3)));
    assert!(!app.is_answer(&PdfResponse::Loaded {
        generation: 1,
        path: Vec::new(),
        title: None,
        fingerprint: String::new(),
        page_sizes: Vec::new(),
    }));
}

#[test]
fn pages_stay_in_the_document() {
    let mut app = opened(3);
    app.go_to_page(1, 7);
    assert_eq!((app.current_page, app.page_input.as_str()), (1, "2"));
    assert_eq!(app.pending_scroll, Some(vector(0.0, 0.0)));
    assert_eq!((app.desired_render, app.render_due), (None, 7));
    app.go_to_page(99, 7);
    assert_eq!((app.current_page, app.page_input.as_str()), (2, "3"));
    app.layout = LayoutMode::Continuous;
    app.go_to_page(0, 7);
    assert_eq!((app.pending_page_scroll, app.pending_scroll), (Some(0), None));
    let (mut empty, _) = App::new(None, 0);
    empty.go_to_page(4, 7);
    assert_eq!((empty.current_page, empty.render_due), (0, 0));
}

#[test]
fn back_returns_to_where_a_link_was_followed() {
    let mut app = opened(9);
    app.go_to_page(2, 0);
    app.set_manual_zoom(single(1.5), 0);
    app.settle_single(vector(3.0, 40.0));
    app.navigate_to_destination(place(7), 0);
    assert_eq!(app.current_page, 7);
    assert_eq!(app.pending_destination, Some(place(7)));
    app.set_manual_zoom(single(3.0), 0);
    app.settle_single(vector(0.0, 0.0));
    app.navigate_back(0);
    assert_eq!((app.current_page, app.page_input.as_str()), (2, "3"));
    assert_eq!(zoom(&app), 1.5);
    assert_eq!(app.pending_scroll, Some(vector(3.0, 40.0)));
    app.settle_single(vector(3.0, 40.0));
    app.navigate_forward(0);
    assert_eq!(app.current_page, 7);
    assert_eq!(zoom(&app), 3.0);
    assert_eq!(app.back_history.len(), 1);
    assert_eq!(app.back_history[0].scroll, vector(3.0, 40.0));
    assert!(app.forward_history.is_empty());
    app.navigate_back(0);
    app.navigate_back(0);
    assert_eq!(app.current_page, 2);
    app.go_to_page(4, 0);
    assert!(app.forward_history.is_empty());
}

#[test]
fn back_restores_layout_and_scroll_position() {
    let mut app = opened(9);
    app.settle_single(vector(3.0, 40.0));
    app.navigate_to_destination(place(7), 0);
    app.toolbar(ToolbarEvent::SetLayout(LayoutMode::Continuous), 0);
    app.navigate_back(0);
    assert_eq!(app.layout, LayoutMode::SinglePage);
    assert_eq!(app.pending_scroll, Some(vector(3.0, 40.0)));
    assert_eq!(app.pending_page_scroll, None);
    assert_eq!((app.forward_history.len(), app.forward_history[0].page_index), (1, 7));
    app.navigate_forward(0);
    assert_eq!((app.layout, app.current_page), (LayoutMode::Continuous, 7));
    assert_eq!(app.pending_scroll, Some(vector(3.0, 40.0)));
    assert_eq!(app.pending_page_scroll, None);
}

#[test]
fn the_chosen_zoom_is_shown() {
    let mut app = opened(3);
    app.go_to_page(2, 0);
    for step in 0..400 {
        let chosen = 0.25 + step as f32 * 0.009_375;
        app.set_manual_zoom(single(chosen), 0);
        let shown = f32::from_bits(app.effective_zoom().bits);
        let distance = (f64::from(shown) - f64::from(chosen)).abs();
        assert!(distance * 4_194_304.0 <= f64::from(chosen), "{chosen} is shown as {shown}");
        assert_eq!((app.current_page, app.layout), (2, LayoutMode::SinglePage));
    }
}

#[test]
fn zoom_is_bounded() {
    let mut app = opened(1);
    app.set_manual_zoom(single(9.0), 5);
    assert_eq!(zoom(&app), 4.0);
    assert_eq!(app.render_due, u128::from(5 + RENDER_DEBOUNCE));
    app.set_manual_zoom(single(-1.0), 5);
    assert_eq!(zoom(&app), 0.25);
    app.set_manual_zoom(single(1.25), 5);
    assert_eq!(zoom(&app), 1.25);
    assert_eq!(app.zoom, ZoomMode::Manual(single(1.25)));
    assert_ne!(app.zoom, ZoomMode::Manual(single(1.5)));
    assert_ne!(app.zoom, ZoomMode::FitPage);
    assert_eq!(app.effective_zoom(), single(1.25));
    assert_eq!(app.zoom_percent(), single(125.0));
}

#[test]
fn keys_turn_pages_and_scroll() {
    let mut app = opened(5);
    app.settle_single(vector(2.0, 100.0));
    let mut press = |set: fn(&mut ShortcutInput)| {
        let mut input = keys();
        set(&mut input);
        app.process_shortcuts(&input, 0);
        (app.current_page, app.pending_scroll)
    };
    assert_eq!(press(|input| input.page_down = true).0, 1);
    assert_eq!(press(|input| input.right = true).0, 2);
    assert_eq!(press(|input| input.left = true).0, 1);
    assert_eq!(press(|input| input.page_up = true).0, 0);
    assert_eq!(press(|input| input.page_up = true).0, 0);
    assert_eq!(press(|input| input.end = true).0, 4);
    assert_eq!(press(|input| input.page_down = true).0, 4);
    assert_eq!(press(|input| input.home = true).0, 0);
    assert_eq!(press(|input| input.down = true).1, Some(vector(2.0, 160.0)));
    assert_eq!(press(|input| input.up = true).1, Some(vector(2.0, 40.0)));
    let typed = press(|input| {
        input.typing = true;
        input.page_down = true;
        input.right = true;
    });
    assert_eq!(typed.0, 0);
    app.settle_single(vector(2.0, 10.0));
    let mut up = keys();
    up.up = true;
    app.process_shortcuts(&up, 0);
    assert_eq!(app.pending_scroll, Some(vector(2.0, 0.0)));
}

#[test]
fn keys_zoom_and_go_back() {
    let mut app = opened(5);
    let mut input = keys();
    input.zoom_reset = true;
    app.process_shortcuts(&input, 0);
    assert_eq!(zoom(&app), 1.0);
    let mut input = keys();
    input.zoom_in = true;
    app.process_shortcuts(&input, 0);
    let logical = 96.0_f32 / 72.0;
    let shown = |factor: f32| logical * factor / logical;
    assert_eq!(zoom(&app), shown(1.0) + 0.1);
    let before = zoom(&app);
    let mut input = keys();
    input.zoom_out = true;
    app.process_shortcuts(&input, 0);
    assert_eq!(zoom(&app), shown(before) - 0.1);
    let before = zoom(&app);
    let mut input = keys();
    input.zoom_delta = single(2.0);
    app.process_shortcuts(&input, 0);
    assert_eq!(zoom(&app), before);
    input.control = true;
    app.process_shortcuts(&input, 0);
    assert_eq!(zoom(&app), shown(before) * 2.0);
    app.navigate_to_destination(place(3), 0);
    let mut input = keys();
    input.back = true;
    app.process_shortcuts(&input, 0);
    assert_eq!(app.current_page, 0);
    let mut input = keys();
    input.forward = true;
    app.process_shortcuts(&input, 0);
    assert_eq!(app.current_page, 3);
}

#[test]
fn the_toolbar_offers_what_can_be_done() {
    let (empty, _) = App::new(None, 0);
    for event in [
        ToolbarEvent::Back,
        ToolbarEvent::Forward,
        ToolbarEvent::PreviousPage,
        ToolbarEvent::NextPage,
        ToolbarEvent::ZoomIn,
        ToolbarEvent::ToggleNotes,
    ] {
        assert!(!empty.toolbar_offers(event));
    }
    assert_eq!(empty.page_total(), "/ 1");
    let mut app = opened(2);
    assert_eq!(app.page_total(), "/ 2");
    assert!(!app.toolbar_offers(ToolbarEvent::PreviousPage));
    assert!(app.toolbar_offers(ToolbarEvent::NextPage));
    app.toolbar(ToolbarEvent::NextPage, 0);
    assert_eq!(app.current_page, 1);
    assert!(!app.toolbar_offers(ToolbarEvent::NextPage));
    app.toolbar(ToolbarEvent::PreviousPage, 0);
    assert_eq!(app.current_page, 0);
    app.navigate_to_destination(place(1), 0);
    assert!(app.toolbar_offers(ToolbarEvent::Back));
    app.toolbar(ToolbarEvent::Back, 0);
    assert!(app.toolbar_offers(ToolbarEvent::Forward));
    app.toolbar(ToolbarEvent::Forward, 0);
    assert_eq!(app.current_page, 1);
}

#[test]
fn typed_page_numbers_are_gone_to() {
    let mut app = opened(12);
    for (text, page) in [(" 7 ", 6), ("0", 0), ("+3", 2), ("999", 11), ("x", 11), ("-2", 11)] {
        app.page_input = text.into();
        app.toolbar(ToolbarEvent::EnterPage, 0);
        assert_eq!(app.current_page, page, "{text}");
        assert_eq!(app.page_input, (page + 1).to_string());
    }
}

#[test]
fn the_toolbar_changes_size_and_layout() {
    let mut app = opened(4);
    app.toolbar(ToolbarEvent::SetPercent(single(150.0)), 0);
    assert_eq!(zoom(&app), 1.5);
    app.toolbar(ToolbarEvent::FitWidth, 3);
    assert_eq!(app.zoom, ZoomMode::FitWidth);
    assert_eq!(app.render_due, u128::from(3 + RENDER_DEBOUNCE));
    app.toolbar(ToolbarEvent::FitPage, 3);
    assert_eq!(app.zoom, ZoomMode::FitPage);
    app.go_to_page(2, 0);
    app.drag_page = Some(2);
    app.toolbar(ToolbarEvent::SetLayout(LayoutMode::SinglePage), 9);
    assert_eq!((app.drag_page, app.render_due), (Some(2), 0));
    app.toolbar(ToolbarEvent::SetLayout(LayoutMode::Continuous), 9);
    assert_eq!((app.drag_page, app.render_due), (None, 9));
    assert_eq!((app.pending_page_scroll, app.pending_scroll), (Some(2), None));
    app.toolbar(ToolbarEvent::SetLayout(LayoutMode::SinglePage), 9);
    assert_eq!(
        (app.pending_page_scroll, app.pending_scroll),
        (None, Some(vector(0.0, 0.0)))
    );
    assert!(app.notes_shown());
    app.toolbar(ToolbarEvent::ToggleNotes, 0);
    assert!(!app.notes_shown());
}

#[test]
fn the_toolbar_says_what_is_going_on() {
    let mut app = opened(1);
    assert!(matches!(
        app.toolbar_message(false),
        ToolbarMessage::Status { text, is_error: false } if text == "Opened /books/a.pdf"
    ));
    assert!(matches!(app.toolbar_message(true), ToolbarMessage::Nothing));
    app.set_status("bad".into(), true, 0);
    assert!(matches!(app.toolbar_message(true), ToolbarMessage::Status { is_error: true, .. }));
    app.open_path(b"/x/b.pdf".to_vec(), 0);
    assert!(matches!(app.toolbar_message(true), ToolbarMessage::Opening(None)));
    assert!(matches!(
        app.toolbar_message(false),
        ToolbarMessage::Opening(Some(text)) if text == "Opening b.pdf"
    ));
    assert!(is_compact(single(899.0)));
    assert!(!is_compact(single(900.0)));
}

#[test]
fn the_window_shows_a_welcome_first() {
    let (mut empty, _) = App::new(None, 0);
    assert_eq!(empty.central_panel(vector(10.0, 20.0)), CentralContent::Welcome);
    assert_eq!(empty.last_viewport, vector(10.0, 20.0));
    let mut app = opened(1);
    assert_eq!(app.central_panel(vector(10.0, 20.0)), CentralContent::SinglePage);
    app.layout = LayoutMode::Continuous;
    assert_eq!(app.central_panel(vector(10.0, 20.0)), CentralContent::Continuous);
}

#[test]
fn pictures_are_asked_for_and_kept() {
    let mut app = opened(9);
    app.central_panel(vector(648.0, 848.0));
    let frame = app.single_page(single(1.0), 10);
    assert_eq!(frame.display_size, vector(600.0, 800.0));
    let key = RenderKey { generation: 1, page_index: 0, pixel_size: [600, 800] };
    assert_eq!(frame.content.key, key);
    assert_eq!(frame.content.picture, None);
    assert_eq!(frame.offset, Some(vector(0.0, 0.0)));
    assert_eq!((app.desired_render, app.render_due), (Some(key), 10));
    assert!(app.send_render_if_due(9).is_none());
    assert!(matches!(
        app.send_render_if_due(10),
        Some(PdfCommand::RenderPage { generation: 1, page_index: 0, pixel_size: [600, 800] })
    ));
    assert!(app.send_render_if_due(11).is_none());
    let response = PdfResponse::PageRendered {
        generation: 1,
        page_index: 0,
        pixel_size: [600, 800],
        image: image(),
        links: Vec::new(),
    };
    match app.process_backend(response, 12) {
        BackendStep::KeepPage { key, links, name, .. } => {
            assert!(name.starts_with("page-1-"));
            app.keep_page(key, links, 77);
        }
        other => panic!("{other:?}"),
    }
    assert!(app.pending_renders.is_empty());
    let frame = app.single_page(single(1.0), 13);
    assert_eq!(frame.content.picture, Some(0));
    assert_eq!(app.page_cache[0].texture, 77);
    assert_eq!(frame.offset, None);
    assert!(app.send_render_if_due(14).is_none());
    app.central_panel(vector(348.0, 848.0));
    let frame = app.single_page(single(1.0), 20);
    assert_eq!(frame.content.key.pixel_size, [300, 400]);
    assert_eq!(frame.content.picture, Some(0));
    assert_eq!(app.render_due, u128::from(20 + RENDER_DEBOUNCE));
}

#[test]
fn only_the_page_shown_alone_is_asked_for_after_a_frame() {
    let mut app = opened(2);
    app.central_panel(vector(648.0, 848.0));
    app.single_page(single(1.0), 10);
    app.layout = LayoutMode::Continuous;
    assert!(app.render_after_frame(10).is_none());
    app.layout = LayoutMode::SinglePage;
    assert!(app.render_after_frame(9).is_none());
    assert!(matches!(
        app.render_after_frame(10),
        Some(PdfCommand::RenderPage { generation: 1, page_index: 0, pixel_size: [600, 800] })
    ));
    assert!(app.render_after_frame(11).is_none());
}

#[test]
fn marks_are_shown_on_their_page() {
    let mut app = opened(4);
    app.layout = LayoutMode::Continuous;
    selected(&mut app, 2);
    app.drag_page = Some(1);
    app.drag_start = Some([single(0.75), single(0.5)]);
    app.drag_current = Some([single(0.25), single(0.75)]);
    let rects = app.selection_draft.as_ref().map_or(0, |draft| draft.rects.len());
    let frame = app.continuous_document();
    let marks = frame.marks_on(1);
    assert_eq!(marks.drag_rect, Some(rect(0.25, 0.5, 0.5, 0.25)));
    assert!(marks.selected_rects.is_empty());
    let marks = frame.marks_on(2);
    assert_eq!(marks.drag_rect, None);
    assert!(rects > 0);
    assert_eq!(marks.selected_rects.len(), rects);
    let marks = frame.marks_on(0);
    assert_eq!((marks.drag_rect, marks.selected_rects.len()), (None, 0));
}

#[test]
fn the_clock_may_run_to_its_end() {
    let mut app = opened(1);
    app.set_manual_zoom(single(2.0), u64::MAX);
    assert_eq!(app.render_due, u128::from(u64::MAX) + u128::from(RENDER_DEBOUNCE));
    assert_eq!(zoom(&app), 2.0);
}

#[test]
fn pictures_of_other_documents_are_dropped() {
    let mut app = opened(2);
    let key = RenderKey { generation: 8, page_index: 0, pixel_size: [1, 1] };
    app.request_render(key);
    let response = PdfResponse::PageRendered {
        generation: 8,
        page_index: 0,
        pixel_size: [1, 1],
        image: image(),
        links: Vec::new(),
    };
    assert!(matches!(app.process_backend(response, 0), BackendStep::Settled));
    assert!(app.pending_renders.is_empty());
}

#[test]
fn only_the_newest_pictures_are_kept() {
    let key = |page_index| RenderKey { generation: 1, page_index, pixel_size: [1, 1] };
    let pages = |app: &App| {
        app.page_cache
            .iter()
            .map(|entry| (entry.key.page_index, entry.texture))
            .collect::<Vec<_>>()
    };
    let mut app = opened(20);
    for page_index in 0..5 {
        app.keep_page(key(page_index), Vec::new(), page_index as u32);
    }
    assert_eq!(pages(&app), [(4, 4), (3, 3), (2, 2)]);
    app.keep_page(key(3), Vec::new(), 30);
    assert_eq!(pages(&app), [(3, 30), (4, 4), (2, 2)]);
    app.layout = LayoutMode::Continuous;
    for page_index in 0..20 {
        app.keep_page(key(page_index), Vec::new(), 0);
    }
    assert_eq!(app.page_cache.len(), 12);
    assert_eq!(app.page_cache[11].key.page_index, 8);
}

#[test]
fn a_destination_is_scrolled_to() {
    let mut app = opened(9);
    app.central_panel(vector(500.0, 400.0));
    app.set_manual_zoom(single(0.75), 0);
    app.navigate_to_destination(place(4), 0);
    let frame = app.single_page(single(1.0), 0);
    // 100 + 24 - 500 * 0.35 is left of the edge; 200 + 24 - 36 is below it.
    assert_eq!(frame.offset, Some(vector(0.0, 188.0)));
    assert_eq!(app.pending_destination, None);
    app.navigate_to_destination(place(2), 0);
    app.go_to_page(1, 0);
    assert_eq!(app.single_page(single(1.0), 0).offset, Some(vector(0.0, 0.0)));
}

#[test]
fn all_pages_are_read_one_after_the_other() {
    let mut app = opened(3);
    app.toolbar(ToolbarEvent::SetLayout(LayoutMode::Continuous), 0);
    app.set_manual_zoom(single(0.75), 0);
    app.central_panel(vector(648.0, 500.0));
    app.select_annotation(5);
    let frame = app.continuous_document();
    assert_eq!(frame.column.page_tops.len(), 3);
    assert_eq!((frame.page, frame.offset), (Some(0), None));
    assert_eq!(app.pending_page_scroll, None);
    app.settle_continuous(&frame.column, vector(0.0, 100.0));
    assert_eq!((app.current_page, app.selected_annotation), (0, Some(5)));
    app.settle_continuous(&frame.column, vector(0.0, 900.0));
    assert_eq!((app.current_page, app.page_input.as_str()), (1, "2"));
    assert_eq!(app.selected_annotation, None);
    assert_eq!(app.current_scroll, vector(0.0, 900.0));
    let content = app.page_content(2, single(2.0));
    assert_eq!(content.key.pixel_size, [1200, 1600]);
}

#[test]
fn not_too_many_pictures_are_asked_for_ahead() {
    let mut app = opened(20);
    let wanted: Vec<RenderKey> = (0..7)
        .map(|page_index| RenderKey { generation: 1, page_index, pixel_size: [1, 1] })
        .collect();
    app.keep_page(wanted[1], Vec::new(), 0);
    let commands = app.request_renders(&wanted);
    let asked: Vec<usize> = commands
        .iter()
        .map(|command| match command {
            PdfCommand::RenderPage { page_index, .. } => *page_index,
            other => panic!("{other:?}"),
        })
        .collect();
    assert_eq!(asked, [0, 2, 3, 4]);
    assert!(app.request_renders(&wanted).is_empty());
    assert!(app.end_frame(0).soon);
}

#[test]
fn dragging_selects_text() {
    let mut app = opened(3);
    let mut input = pointer();
    input.drag_started = true;
    input.pointer = Some(vector(60.0, 80.0));
    app.handle_page_interaction(1, &input, page_rect(), &Vec::new(), &Vec::new(), 0);
    assert_eq!(app.drag_start, Some([single(0.1), single(0.1)]));
    let mut input = pointer();
    input.dragged = true;
    input.pointer = Some(vector(300.0, 400.0));
    let reply = app.handle_page_interaction(2, &input, page_rect(), &Vec::new(), &Vec::new(), 0);
    assert_eq!(reply.cursor, PageCursor::Unchanged);
    assert_eq!(app.drag_current, Some([single(0.1), single(0.1)]));
    app.handle_page_interaction(1, &input, page_rect(), &Vec::new(), &Vec::new(), 0);
    assert_eq!(app.drag_current, Some([single(0.5), single(0.5)]));
    let mut input = pointer();
    input.drag_stopped = true;
    let reply = app.handle_page_interaction(1, &input, page_rect(), &Vec::new(), &Vec::new(), 0);
    match reply.command {
        Some(PdfCommand::ResolveSelection { generation, request_id, page_index, selection }) => {
            assert_eq!((generation, request_id, page_index), (1, 1, 1));
            assert_eq!(selection.x, single(0.1));
            assert_eq!(selection.width, single(0.4));
        }
        other => panic!("{other:?}"),
    }
    assert_eq!((app.drag_start, app.drag_page), (None, None));
    assert!(matches!(app.selection_menu(1), SelectionMenu::Waiting));
    let resolved = |request_id, text: &str| PdfResponse::SelectionResolved {
        generation: 1,
        request_id,
        page_index: 1,
        text: text.into(),
        rects: vec![rect(0.1, 0.1, 0.2, 0.1)],
    };
    app.process_backend(resolved(9, "other"), 0);
    assert!(app.selection_draft.is_none());
    app.process_backend(resolved(1, "some  words"), 0);
    assert_eq!(
        status(&app),
        ("Text selected — right-click it for Copy, Highlight, or Add note.", false)
    );
    assert!(matches!(
        app.selection_menu(1),
        SelectionMenu::Selected(text) if text == "some words"
    ));
    assert!(matches!(app.selection_menu(0), SelectionMenu::Hint));
}

#[test]
fn a_short_drag_selects_nothing() {
    let mut app = opened(3);
    let mut input = pointer();
    input.drag_started = true;
    input.drag_stopped = true;
    input.pointer = Some(vector(60.0, 80.0));
    let reply = app.handle_page_interaction(1, &input, page_rect(), &Vec::new(), &Vec::new(), 0);
    assert!(reply.command.is_none());
    assert_eq!((app.selection_request, app.selection_waiting), (0, None));
}

#[test]
fn an_area_without_text_is_told() {
    let mut app = opened(3);
    app.selection_waiting = Some(4);
    app.process_backend(
        PdfResponse::SelectionResolved {
            generation: 1,
            request_id: 4,
            page_index: 0,
            text: String::new(),
            rects: vec![rect(0.1, 0.1, 0.2, 0.1)],
        },
        0,
    );
    assert_eq!(status(&app), ("No selectable text was found in that area.", true));
    assert_eq!(app.selection_waiting, None);
    assert!(app.selection_draft.is_none());
}

fn selected(app: &mut App, page_index: usize) {
    app.selection_waiting = Some(1);
    app.process_backend(
        PdfResponse::SelectionResolved {
            generation: 1,
            request_id: 1,
            page_index,
            text: "words".into(),
            rects: vec![rect(0.1, 0.1, 0.2, 0.1)],
        },
        0,
    );
}

#[test]
fn selected_text_is_copied_highlighted_and_noted() {
    let mut app = opened(3);
    assert_eq!(app.apply_selection_action(Some(SelectionAction::Copy), 0), None);
    selected(&mut app, 2);
    assert_eq!(
        app.apply_selection_action(Some(SelectionAction::Copy), 0),
        Some("words".to_owned())
    );
    assert_eq!(status(&app), ("Copied selected text.", false));
    assert_eq!(app.apply_selection_action(Some(SelectionAction::Highlight), 5), None);
    assert!(app.selection_draft.is_none());
    assert_eq!(app.current_page, 0);
    selected(&mut app, 2);
    app.toolbar(ToolbarEvent::ToggleNotes, 0);
    app.apply_selection_action(Some(SelectionAction::AddNote), 6);
    assert_eq!((app.current_page, app.page_input.as_str()), (2, "3"));
    assert_eq!(app.selected_annotation, Some(2));
    assert!(app.notes_shown());
    let annotations = app.document.as_ref().unwrap().annotations.annotations();
    assert_eq!(annotations.len(), 2);
    assert_eq!((annotations[1].id, annotations[1].page_index), (2, 2));
    assert_eq!(annotations[1].selected_text, "words");
    app.delete_highlight(2, 7);
    let annotations = app.document.as_ref().unwrap().annotations.annotations();
    assert_eq!(annotations.len(), 1);
    assert_eq!(annotations[0].id, 1);
    selected(&mut app, 1);
    app.apply_selection_action(Some(SelectionAction::Clear), 0);
    assert!(app.selection_draft.is_none());
    app.apply_selection_action(None, 0);
    app.apply_selection_action(Some(SelectionAction::AddNote), 0);
    assert_eq!(app.document.as_ref().unwrap().annotations.annotations().len(), 1);
}

fn annotation(id: u64, page_index: usize, note: &str) -> Annotation {
    Annotation {
        id,
        page_index,
        rects: vec![rect(0.5, 0.5, 0.25, 0.25)],
        selected_text: "some\n text".into(),
        note: note.into(),
    }
}

#[test]
fn notes_of_the_page_are_listed_and_edited() {
    let (mut app, _) = App::new(None, 0);
    let file = AnnotationFile {
        schema_version: 1,
        document_fingerprint: "f".into(),
        annotations: vec![annotation(1, 0, " "), annotation(2, 1, "x"), annotation(3, 0, "y")],
    };
    app.show_document(document(1, 2), Sidecar::Present(file), 0);
    app.select_annotation(3);
    let summaries = app.note_summaries();
    assert_eq!(summaries.len(), 2);
    assert_eq!(
        (summaries[0].id, summaries[0].label.as_str(), summaries[0].selected),
        (1, "some text", false)
    );
    assert_eq!(
        (summaries[1].id, summaries[1].label.as_str(), summaries[1].selected),
        (3, "📝 some text", true)
    );
    assert_eq!(app.notes_heading(), "Notes — page 1");
    assert_eq!(app.open_note(), Some(3));
    app.edit_note(3, "changed".into(), 50);
    app.edit_note(99, "nothing".into(), 60);
    assert_eq!(
        app.document.as_ref().unwrap().annotations.annotations()[2].note,
        "changed"
    );
    assert!(matches!(app.save_annotations(50 + SAVE_DELAY - 1), (SaveAction::Finish, true)));
    assert!(matches!(app.save_annotations(50 + SAVE_DELAY), (SaveAction::Write { .. }, true)));
    app.select_annotation(2);
    assert_eq!(app.open_note(), None);
    assert_eq!(app.selected_annotation, None);
    app.select_annotation(99);
    assert_eq!(app.open_note(), None);
}

#[test]
fn clicks_follow_links_and_select_annotations() {
    let mut app = opened(5);
    let links = vec![
        LinkRegion {
            rect: rect(0.0, 0.0, 0.25, 0.25),
            target: LinkTarget::Internal(place(4)),
        },
        LinkRegion {
            rect: rect(0.0, 0.0, 0.5, 0.25),
            target: LinkTarget::Uri("https://a".into()),
        },
    ];
    let annotations = vec![annotation(7, 1, "")];
    let mut input = pointer();
    input.hovered = true;
    input.clicked = true;
    input.hover_pos = Some(vector(250.0, 100.0));
    let reply = app.handle_page_interaction(1, &input, page_rect(), &links, &annotations, 0);
    assert_eq!(reply.open_url.as_deref(), Some("https://a"));
    assert_eq!(reply.cursor, PageCursor::PointingHand);
    assert_eq!(app.current_page, 0);
    input.hover_pos = Some(vector(400.0, 500.0));
    let reply = app.handle_page_interaction(1, &input, page_rect(), &links, &annotations, 0);
    assert_eq!((app.current_page, app.selected_annotation), (1, Some(7)));
    assert_eq!(reply.cursor, PageCursor::Text);
    input.hover_pos = Some(vector(590.0, 790.0));
    app.handle_page_interaction(1, &input, page_rect(), &links, &annotations, 0);
    assert_eq!((app.current_page, app.selected_annotation), (1, None));
    input.hover_pos = Some(vector(10.0, 10.0));
    let reply = app.handle_page_interaction(1, &input, page_rect(), &links, &annotations, 0);
    assert!(reply.open_url.is_none());
    assert_eq!((app.current_page, app.back_history.len()), (4, 1));
}

#[test]
fn a_link_is_explained_after_a_while() {
    let mut app = opened(5);
    let screen = ScreenRect::placed(vector(0.0, 0.0), vector(1280.0, 820.0));
    let links = vec![LinkRegion {
        rect: rect(0.0, 0.0, 1.0, 1.0),
        target: LinkTarget::Internal(place(4)),
    }];
    assert!(matches!(app.hover_preview(single(1.0), None, screen, 0), HoverReply::Nothing));
    let mut input = pointer();
    input.hovered = true;
    input.hover_pos = Some(vector(10.0, 10.0));
    app.handle_page_interaction(1, &input, page_rect(), &links, &Vec::new(), 1000);
    app.handle_page_interaction(1, &input, page_rect(), &links, &Vec::new(), 2000);
    assert!(matches!(
        app.hover_preview(single(1.0), None, screen, 1100),
        HoverReply::Wait(pause) if pause == HOVER_DELAY - 100
    ));
    let then = 1000 + HOVER_DELAY;
    match app.hover_preview(single(1.5), Some(vector(100.0, 200.0)), screen, then) {
        HoverReply::Show { content, position, command } => {
            assert!(matches!(
                content,
                HoverContent::Place { heading, picture: None } if heading == "Page 5"
            ));
            assert_eq!(position, vector(116.0, 218.0));
            assert!(matches!(
                command,
                Some(PdfCommand::RenderPreview { generation: 1, .. })
            ));
        }
        other => panic!("{other:?}"),
    }
    match app.hover_preview(single(1.5), Some(vector(1200.0, 700.0)), screen, then) {
        HoverReply::Show { position, command, .. } => {
            assert_eq!(position, vector(1200.0 - 438.0 - 12.0, 820.0 - 294.0 - 8.0));
            assert!(command.is_none());
        }
        other => panic!("{other:?}"),
    }
    let key = PreviewKey::for_destination(&place(4));
    let response = PdfResponse::PreviewRendered { generation: 1, key, image: image() };
    match app.process_backend(response, 0) {
        BackendStep::KeepPreview { preview, name, .. } => {
            assert_eq!(
                name,
                "preview-1-PreviewKey { page_index: 4, x_bucket: 200, y_bucket: 400 }"
            );
            assert_eq!(name, format!("preview-1-{key:?}"));
            app.keep_preview(preview, 9);
        }
        other => panic!("{other:?}"),
    }
    assert!(app.pending_previews.is_empty());
    assert!(matches!(
        app.hover_preview(single(1.5), None, screen, then),
        HoverReply::Show { content: HoverContent::Place { picture: Some(0), .. }, command: None, .. }
    ));
    app.leave_pages();
    assert!(matches!(app.hover_preview(single(1.0), None, screen, then), HoverReply::Nothing));
}

#[test]
fn an_address_is_shown_shortened() {
    let mut app = opened(1);
    let links = vec![LinkRegion {
        rect: rect(0.0, 0.0, 1.0, 1.0),
        target: LinkTarget::Uri("x".repeat(100)),
    }];
    let mut input = pointer();
    input.hover_pos = Some(vector(10.0, 10.0));
    app.handle_page_interaction(0, &input, page_rect(), &links, &Vec::new(), 0);
    let screen = ScreenRect::placed(vector(0.0, 0.0), vector(300.0, 60.0));
    match app.hover_preview(single(1.0), None, screen, HOVER_DELAY) {
        HoverReply::Show { content: HoverContent::Address(text), position, command } => {
            assert_eq!(text, format!("{}…", "x".repeat(80)));
            assert_eq!(position, vector(20.0 - 360.0 - 12.0, 8.0));
            assert!(command.is_none());
        }
        other => panic!("{other:?}"),
    }
}

#[test]
fn only_the_newest_previews_are_kept() {
    let mut app = opened(1);
    for page_index in 0..14 {
        app.keep_preview(PreviewKey { page_index, x_bucket: 0, y_bucket: 0 }, 0);
    }
    app.keep_preview(PreviewKey { page_index: 5, x_bucket: 0, y_bucket: 0 }, 1);
    assert_eq!(app.preview_cache.len(), 12);
    assert_eq!((app.preview_cache[0].key.page_index, app.preview_cache[0].texture), (5, 1));
    assert_eq!(app.preview_cache[1].key.page_index, 13);
}

#[test]
fn annotations_are_saved_when_they_are_due() {
    let mut app = opened(1);
    assert!(matches!(app.save_annotations(0), (SaveAction::Finish, false)));
    selected(&mut app, 0);
    app.apply_selection_action(Some(SelectionAction::Highlight), 100);
    assert!(matches!(app.save_annotations(101), (SaveAction::Finish, true)));
    assert!(matches!(
        app.save_annotations(100 + SAVE_DELAY),
        (SaveAction::Write { .. }, true)
    ));
    app.save_failed("disk full", 5);
    assert_eq!(status(&app), ("Could not save annotations: disk full", true));
    assert!(matches!(app.continue_save(SaveEvent::Begin), SaveAction::Write { .. }));
    assert!(matches!(app.continue_save(SaveEvent::Written), SaveAction::Rename { .. }));
    assert!(matches!(app.continue_save(SaveEvent::Renamed), SaveAction::Finish));
    assert!(matches!(app.save_annotations(u64::MAX), (SaveAction::Finish, false)));
    let (mut empty, _) = App::new(None, 0);
    assert!(matches!(empty.continue_save(SaveEvent::Begin), SaveAction::Finish));
}

#[test]
fn changes_are_saved_before_another_document_is_shown() {
    let mut app = opened(1);
    assert!(!app.has_unsaved_changes());
    selected(&mut app, 0);
    app.apply_selection_action(Some(SelectionAction::Highlight), 100);
    assert!(app.has_unsaved_changes());
    match app.continue_save(SaveEvent::Begin) {
        SaveAction::Write { path, file } => {
            assert_eq!(path, b"/books/a.pdf.spv.json.tmp".to_vec());
            assert_eq!(file.annotations.len(), 1);
        }
        _ => panic!("changes are written"),
    }
    assert!(app.has_unsaved_changes());
    app.continue_save(SaveEvent::Written);
    assert!(app.has_unsaved_changes());
    app.continue_save(SaveEvent::Renamed);
    assert!(!app.has_unsaved_changes());
    app.show_document(document(2, 4), Sidecar::Missing, 0);
    assert_eq!(app.active_generation(), Some(2));
}

#[test]
fn changes_that_cannot_be_saved_are_given_up() {
    let mut app = opened(1);
    selected(&mut app, 0);
    app.apply_selection_action(Some(SelectionAction::Highlight), 100);
    app.continue_save(SaveEvent::Begin);
    app.save_failed("disk full", 100);
    assert!(app.has_unsaved_changes());
    app.give_up_changes();
    assert!(!app.has_unsaved_changes());
    assert_eq!(status(&app), ("Could not save annotations: disk full", true));
    assert!(matches!(app.continue_save(SaveEvent::Begin), SaveAction::Finish));
    let (mut empty, _) = App::new(None, 0);
    empty.give_up_changes();
    assert!(!empty.has_unsaved_changes());
}

#[test]
fn messages_are_taken_away() {
    let mut app = opened(1);
    app.set_status("hello".into(), false, 1000);
    let repaint = app.end_frame(1500);
    assert_eq!((repaint.soon, repaint.after), (false, Some(STATUS_LIFETIME - 500)));
    assert_eq!(app.end_frame(1000 + STATUS_LIFETIME).after, Some(0));
    assert!(app.status.is_some());
    assert_eq!(app.end_frame(1001 + STATUS_LIFETIME).after, None);
    assert!(app.status.is_none());
    app.selection_waiting = Some(1);
    assert!(app.end_frame(0).soon);
}

#[test]
fn a_new_document_begins_anew() {
    let mut app = opened(9);
    let key = RenderKey { generation: 1, page_index: 0, pixel_size: [1, 1] };
    app.keep_page(key, Vec::new(), 0);
    app.keep_preview(PreviewKey { page_index: 0, x_bucket: 0, y_bucket: 0 }, 0);
    app.request_render(RenderKey { generation: 1, page_index: 3, pixel_size: [1, 1] });
    app.navigate_to_destination(place(7), 0);
    selected(&mut app, 2);
    app.select_annotation(1);
    app.show_document(document(2, 4), Sidecar::Missing, 0);
    assert_eq!((app.active_generation(), app.page_count()), (Some(2), 4));
    assert_eq!((app.current_page, app.page_input.as_str()), (0, "1"));
    assert!(app.page_cache.is_empty() && app.preview_cache.is_empty());
    assert!(app.pending_renders.is_empty() && app.back_history.is_empty());
    assert!(app.selection_draft.is_none() && app.selected_annotation.is_none());
}

#[test]
fn only_the_last_selection_counts() {
    let mut app = opened(3);
    for end in [300.0, 400.0] {
        let mut input = pointer();
        input.drag_started = true;
        input.pointer = Some(vector(60.0, 80.0));
        app.handle_page_interaction(1, &input, page_rect(), &Vec::new(), &Vec::new(), 0);
        let mut input = pointer();
        input.dragged = true;
        input.drag_stopped = true;
        input.pointer = Some(vector(end, end));
        app.handle_page_interaction(1, &input, page_rect(), &Vec::new(), &Vec::new(), 0);
    }
    assert_eq!(app.selection_waiting, Some(2));
    selected_as(&mut app, 1, "first");
    assert!(app.selection_draft.is_none());
    selected_as(&mut app, 2, "second");
    assert_eq!(app.selection_draft.as_ref().unwrap().text, "second");
}

fn selected_as(app: &mut App, request_id: u64, text: &str) {
    app.process_backend(
        PdfResponse::SelectionResolved {
            generation: 1,
            request_id,
            page_index: 1,
            text: text.into(),
            rects: vec![rect(0.1, 0.1, 0.2, 0.1)],
        },
        0,
    );
}
