use simple_pdf_viewer::annotations::NormalizedRect;
use simple_pdf_viewer::float::Real32;
use simple_pdf_viewer::float::Real64;
use simple_pdf_viewer::pdf::Destination;
use simple_pdf_viewer::render::convert_surface;
use simple_pdf_viewer::render::render_full_page;
use simple_pdf_viewer::render::render_preview;
use simple_pdf_viewer::render::resolve_selection;
use simple_pdf_viewer::render::selection_area;
use simple_pdf_viewer::render::ByteOrder;
use simple_pdf_viewer::render::PointRect;

fn single(value: f32) -> Real32 {
    Real32 { bits: value.to_bits() }
}

fn double(value: f64) -> Real64 {
    Real64 { bits: value.to_bits() }
}

fn number(value: Real64) -> f64 {
    f64::from_bits(value.bits)
}

#[test]
fn a_page_fills_its_picture() {
    let plan = render_full_page([double(600.0), double(800.0)], [300, 1600]);
    assert_eq!((plan.width, plan.height), (300, 1600));
    assert_eq!((number(plan.scale_x), number(plan.scale_y)), (0.5, 2.0));
    assert_eq!((number(plan.shift_x), number(plan.shift_y)), (0.0, 0.0));
    let least = render_full_page([double(600.0), double(800.0)], [0, usize::MAX]);
    assert_eq!((least.width, least.height), (1, i32::MAX));
}

#[test]
fn a_preview_shows_the_surroundings_of_a_point() {
    let size = [595.276_f64, 841.89_f64];
    for (x, y, ppp) in [(100.0_f32, 200.0_f32, 1.0_f32), (590.0, 0.0, 1.75), (300.5, 841.0, 3.0)] {
        let plan = render_preview(
            &Destination { page_index: 0, x: Some(single(x)), y_from_top: Some(single(y)) },
            [double(size[0]), double(size[1])],
            single(ppp),
        );
        let width = (420.0_f32 * ppp.clamp(1.0, 2.0)).round() as i32;
        let height = (260.0_f32 * ppp.clamp(1.0, 2.0)).round() as i32;
        let crop_width = (size[0] * 0.62).clamp(250.0, 380.0);
        let crop_height = crop_width * f64::from(height) / f64::from(width);
        let crop_x =
            (f64::from(x) - crop_width * 0.5).clamp(0.0, (size[0] - crop_width).max(0.0));
        let crop_y =
            (f64::from(y) - crop_height * 0.3).clamp(0.0, (size[1] - crop_height).max(0.0));
        let scale = (f64::from(width) / crop_width).min(f64::from(height) / crop_height);
        assert_eq!((plan.width, plan.height), (width, height));
        assert_eq!((number(plan.scale_x), number(plan.scale_y)), (scale, scale));
        assert_eq!((number(plan.shift_x), number(plan.shift_y)), (-crop_x, -crop_y));
        assert!(!plan.shift_first);
    }
}

#[test]
fn a_preview_without_a_point_shows_the_whole_page() {
    let size = [595.276_f64, 841.89_f64];
    let plan = render_preview(
        &Destination { page_index: 0, x: Some(single(1.0)), y_from_top: None },
        [double(size[0]), double(size[1])],
        single(1.0),
    );
    let scale = (420.0 / size[0]).min(260.0 / size[1]);
    assert_eq!((plan.width, plan.height), (420, 260));
    assert_eq!(number(plan.scale_x), scale);
    assert_eq!(number(plan.shift_x), (420.0 - size[0] * scale) * 0.5);
    assert_eq!(number(plan.shift_y), (260.0 - size[1] * scale) * 0.5);
    assert!(plan.shift_first);
}

#[test]
fn pixels_are_put_in_order() {
    let data = [
        1, 2, 3, 4, 5, 6, 7, 8, 99, 99, 11, 12, 13, 14, 15, 16, 17, 18, 99, 99,
    ];
    let little = convert_surface(&data, 10, 2, 2, ByteOrder::Little);
    assert_eq!((little.width, little.height), (2, 2));
    assert_eq!(
        little.rgba,
        [3, 2, 1, 4, 7, 6, 5, 8, 13, 12, 11, 14, 17, 16, 15, 18]
    );
    let big = convert_surface(&data, 10, 2, 2, ByteOrder::Big);
    assert_eq!(
        big.rgba,
        [2, 3, 4, 1, 6, 7, 8, 5, 12, 13, 14, 11, 16, 17, 18, 15]
    );
    assert!(convert_surface(&[], 0, 0, 0, ByteOrder::Little).rgba.is_empty());
}

#[test]
fn a_selection_is_measured_in_points_from_below() {
    let selection = NormalizedRect {
        x: single(0.25),
        y: single(0.125),
        width: single(0.5),
        height: single(0.25),
    };
    let area = selection_area(selection, [double(600.0), double(800.0)]);
    assert_eq!((number(area.x1), number(area.x2)), (150.0, 450.0));
    assert_eq!((number(area.y1), number(area.y2)), (500.0, 700.0));
}

#[test]
fn selected_text_is_trimmed_and_placed() {
    let region = vec![
        PointRect { x: 60, y: 80, width: 300, height: 8 },
        PointRect { x: 60, y: 90, width: 0, height: 8 },
        PointRect { x: 60, y: 90, width: 5, height: -1 },
    ];
    let size = [double(600.0), double(800.0)];
    let (text, rects) = resolve_selection(Some("  two words\n"), Some(&region), size);
    assert_eq!(text, "two words");
    assert_eq!(
        rects,
        vec![NormalizedRect {
            x: single(60.0 / 600.0),
            y: single(80.0 / 800.0),
            width: single(300.0 / 600.0),
            height: single(8.0 / 800.0),
        }]
    );
    assert_eq!(resolve_selection(None, None, size), (String::new(), Vec::new()));
}
