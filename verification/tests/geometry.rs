use simple_pdf_viewer::annotations::NormalizedRect;
use simple_pdf_viewer::float::Real32;
use simple_pdf_viewer::geometry::display_scale;
use simple_pdf_viewer::geometry::find_page_read;
use simple_pdf_viewer::geometry::lay_out_column;
use simple_pdf_viewer::geometry::place_column;
use simple_pdf_viewer::geometry::place_single_page;
use simple_pdf_viewer::geometry::point_to_normalized;
use simple_pdf_viewer::geometry::rect_to_screen;
use simple_pdf_viewer::geometry::render_key;
use simple_pdf_viewer::geometry::Alignment;
use simple_pdf_viewer::geometry::ScreenRect;
use simple_pdf_viewer::geometry::Vector;
use simple_pdf_viewer::geometry::ZoomMode;
use simple_pdf_viewer::pdf::Destination;

const MAX_TEXTURE_SIDE: f64 = 8_192.0;
const MAX_RENDER_PIXELS: f64 = 24_000_000.0;

fn single(value: f32) -> Real32 {
    Real32 { bits: value.to_bits() }
}

fn float(value: Real32) -> f32 {
    f32::from_bits(value.bits)
}

fn vector(x: f32, y: f32) -> Vector {
    Vector { x: single(x), y: single(y) }
}

fn rect(x: f32, y: f32, width: f32, height: f32) -> ScreenRect {
    ScreenRect::placed(vector(x, y), vector(width, height))
}

#[test]
fn render_size_respects_pixel_budget() {
    let key = render_key(1, 0, vector(20_000.0, 20_000.0), single(2.0));
    assert!(key.pixel_size[0] <= MAX_TEXTURE_SIDE as usize);
    assert!(key.pixel_size[1] <= MAX_TEXTURE_SIDE as usize);
    assert!(key.pixel_size[0] * key.pixel_size[1] <= MAX_RENDER_PIXELS as usize + 20_000);
}

#[test]
fn coordinate_round_trip_is_stable() {
    let page = rect(20.0, 30.0, 600.0, 800.0);
    let point = vector(170.0, 230.0);
    let normalized = point_to_normalized(point, page);
    assert!((float(normalized[0]) - 0.25).abs() < f32::EPSILON);
    assert!((float(normalized[1]) - 0.25).abs() < f32::EPSILON);
}

#[test]
fn render_sizes_have_exact_values() {
    let size = |x, y, ppp| render_key(1, 2, vector(x, y), single(ppp)).pixel_size;
    assert_eq!(size(612.0, 792.0, 1.0), [612, 792]);
    assert_eq!(size(612.0, 792.0, 1.5), [918, 1188]);
    assert_eq!(size(0.0, -5.0, 1.0), [1, 1]);
    assert_eq!(size(16_384.0, 100.0, 1.0), [8192, 50]);
    assert_eq!(size(20_000.0, 20_000.0, 2.0), [4899, 4899]);
    assert_eq!(size(f32::INFINITY, 100.0, 1.0), [0, 0]);
    assert_eq!(size(f32::NAN, 100.0, 1.0), [1, 100]);
    let key = render_key(7, 2, vector(10.0, 10.0), single(1.0));
    assert_eq!((key.generation, key.page_index), (7, 2));
}

#[test]
fn render_sizes_agree_with_the_processor() {
    let lengths = [0.3_f32, 1.0, 99.5, 640.25, 8191.6, 8192.4, 30_000.0, 3.0e20, 3.4e38];
    for &x in &lengths {
        for &y in &lengths {
            for ppp in [0.75_f32, 1.0, 1.3333, 2.0, 1.0e30] {
                let mut width = f64::from(x * ppp).max(1.0);
                let mut height = f64::from(y * ppp).max(1.0);
                let side_scale = (MAX_TEXTURE_SIDE / width)
                    .min(MAX_TEXTURE_SIDE / height)
                    .min(1.0);
                let pixel_scale = (MAX_RENDER_PIXELS / (width * height)).sqrt().min(1.0);
                let scale = side_scale.min(pixel_scale);
                width *= scale;
                height *= scale;
                let key = render_key(0, 0, vector(x, y), single(ppp));
                assert_eq!(
                    key.pixel_size,
                    [width.round() as usize, height.round() as usize],
                    "{x} {y} {ppp}"
                );
                assert!(key.pixel_size[0] <= 8192 && key.pixel_size[1] <= 8192);
                assert!(key.pixel_size[0] * key.pixel_size[1] <= 24_008_193);
            }
        }
    }
}

#[test]
fn keys_are_the_same_when_all_parts_are() {
    let key = render_key(1, 2, vector(10.0, 20.0), single(1.0));
    let mut other = key;
    assert!(key.same(other));
    other.pixel_size[1] += 1;
    assert!(!key.same(other));
    assert!(other.shows(1, 2));
    assert!(!other.shows(1, 3));
    assert!(!other.shows(2, 2));
}

#[test]
fn points_beside_the_page_are_on_its_edge() {
    let page = rect(20.0, 30.0, 600.0, 800.0);
    assert_eq!(
        point_to_normalized(vector(0.0, 5000.0), page),
        [single(0.0), single(1.0)]
    );
}

#[test]
fn rectangles_are_placed_on_the_page() {
    let page = rect(20.0, 30.0, 600.0, 800.0);
    let part = NormalizedRect {
        x: single(0.25),
        y: single(0.5),
        width: single(0.5),
        height: single(0.125),
    };
    assert_eq!(rect_to_screen(part, page), rect(170.0, 430.0, 300.0, 100.0));
}

#[test]
fn pages_are_fitted_to_the_window() {
    let page = [single(600.0), single(800.0)];
    let scale = |zoom, x, y| float(display_scale(zoom, page, vector(x, y)));
    assert_eq!(scale(ZoomMode::Manual(single(1.5)), 1.0, 1.0), (96.0_f32 / 72.0) * 1.5);
    assert_eq!(scale(ZoomMode::FitWidth, 648.0, 100.0), 1.0);
    assert_eq!(scale(ZoomMode::FitPage, 648.0, 448.0), 0.5);
    assert_eq!(scale(ZoomMode::FitWidth, 10.0, 10.0), 40.0 / 600.0);
    let huge = [single(1.0e9), single(1.0e9)];
    assert_eq!(float(display_scale(ZoomMode::FitPage, huge, vector(900.0, 700.0))), 0.02);
}

#[test]
fn a_single_page_is_in_the_middle() {
    let placement =
        place_single_page(vector(5.0, 7.0), rect(0.0, 0.0, 1000.0, 500.0), vector(600.0, 800.0));
    assert_eq!(placement.canvas_size, vector(1048.0, 848.0));
    assert_eq!(placement.page_rect, rect(205.0, 31.0, 600.0, 800.0));
}

fn three_pages() -> Vec<[Real32; 2]> {
    vec![
        [single(600.0), single(800.0)],
        [single(300.0), single(400.0)],
        [single(600.0), single(800.0)],
    ]
}

#[test]
fn pages_are_one_below_the_other() {
    let zoom = ZoomMode::Manual(single(0.75));
    let column = lay_out_column(zoom, &three_pages(), vector(500.0, 400.0));
    assert_eq!(column.display_sizes[0], vector(600.0, 800.0));
    assert_eq!(column.display_sizes[1], vector(300.0, 400.0));
    let tops: Vec<f32> = column.page_tops.iter().map(|top| float(*top)).collect();
    assert_eq!(tops, [24.0, 842.0, 1260.0]);
    assert_eq!(column.canvas_size, vector(648.0, 2084.0));
    let empty = lay_out_column(zoom, &Vec::new(), vector(500.0, 400.0));
    assert_eq!(empty.canvas_size, vector(500.0, 400.0));
}

#[test]
fn pages_near_the_window_are_drawn() {
    let zoom = ZoomMode::Manual(single(0.75));
    let column = lay_out_column(zoom, &three_pages(), vector(500.0, 400.0));
    let origin = vector(10.0, -100.0);
    let scene = place_column(
        &column,
        Some(2),
        Some(Destination { page_index: 1, x: None, y_from_top: Some(single(100.0)) }),
        origin,
        rect(0.0, 100.0, 500.0, 400.0),
    );
    let drawn: Vec<usize> = scene.pages.iter().map(|page| page.page_index).collect();
    assert_eq!(drawn, [0, 1]);
    assert_eq!(scene.pages[0].rect, rect(34.0, -76.0, 600.0, 800.0));
    assert_eq!(scene.pages[1].rect, rect(184.0, 742.0, 300.0, 400.0));
    assert_eq!(scene.targets.len(), 2);
    assert_eq!(scene.targets[0].alignment, Alignment::Middle);
    assert_eq!(scene.targets[0].rect, rect(10.0, 842.0, 648.0, 1.0));
    assert_eq!(scene.targets[1].alignment, Alignment::Start);
    assert_eq!(scene.targets[1].rect, rect(10.0, 1160.0, 648.0, 1.0));
}

#[test]
fn the_page_in_the_upper_part_of_the_window_is_read() {
    let zoom = ZoomMode::Manual(single(0.75));
    let window = vector(500.0, 400.0);
    let column = lay_out_column(zoom, &three_pages(), window);
    let read = |y| find_page_read(&column, vector(0.0, y), window);
    assert_eq!(read(0.0), Some(0));
    assert_eq!(read(900.0), Some(1));
    assert_eq!(read(9000.0), Some(2));
    // Half way between the middles of two pages it is the first one.
    assert_eq!(read(593.0), Some(0));
    assert_eq!(read(593.5), Some(1));
    let empty = lay_out_column(zoom, &Vec::new(), window);
    assert_eq!(find_page_read(&empty, vector(0.0, 0.0), window), None);
}
