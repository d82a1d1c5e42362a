use simple_pdf_viewer::float::Real32;
use simple_pdf_viewer::float::Real64;
use simple_pdf_viewer::links::extract_links;
use simple_pdf_viewer::links::parse_action;
use simple_pdf_viewer::links::parse_destination;
use simple_pdf_viewer::links::place_destination;
use simple_pdf_viewer::links::DestinationKind;
use simple_pdf_viewer::links::DestinationStep;
use simple_pdf_viewer::links::LinkAction;
use simple_pdf_viewer::links::LinkMapping;
use simple_pdf_viewer::links::RawDestination;
use simple_pdf_viewer::pdf::Destination;
use simple_pdf_viewer::pdf::LinkTarget;

fn single(value: f32) -> Real32 {
    Real32 { bits: value.to_bits() }
}

fn double(value: f64) -> Real64 {
    Real64 { bits: value.to_bits() }
}

fn raw(kind: DestinationKind, page_num: i32) -> RawDestination {
    RawDestination { kind, name: None, page_num, left: double(72.0), top: double(700.0) }
}

#[test]
fn destinations_lead_to_pages_of_the_document() {
    let step = |page_num| parse_destination(Some(&raw(DestinationKind::Other, page_num)), 3, 0);
    assert!(matches!(step(1), DestinationStep::OnPage { page_index: 0 }));
    assert!(matches!(step(3), DestinationStep::OnPage { page_index: 2 }));
    for page_num in [0, 4, -1, i32::MIN, i32::MAX] {
        assert!(matches!(step(page_num), DestinationStep::Nowhere));
    }
    assert!(matches!(parse_destination(None, 3, 0), DestinationStep::Nowhere));
}

#[test]
fn names_are_looked_up_only_so_often() {
    let mut named = raw(DestinationKind::Named, 2);
    assert!(matches!(
        parse_destination(Some(&named), 3, 0),
        DestinationStep::OnPage { page_index: 1 }
    ));
    named.name = Some(b"chap\xff1".to_vec());
    for depth in 0..=2 {
        match parse_destination(Some(&named), 3, depth) {
            DestinationStep::LookUp { name } => assert_eq!(name, "chap\u{fffd}1"),
            other => panic!("{other:?}"),
        }
    }
    assert!(matches!(parse_destination(Some(&named), 3, 3), DestinationStep::Nowhere));
}

#[test]
fn destinations_are_measured_from_the_upper_left_corner() {
    let size = [double(600.0), double(800.0)];
    for kind in [
        DestinationKind::Point,
        DestinationKind::Width,
        DestinationKind::BoundingWidth,
    ] {
        assert_eq!(
            place_destination(&raw(kind, 1), 5, size),
            Destination {
                page_index: 5,
                x: Some(single(72.0)),
                y_from_top: Some(single(100.0)),
            }
        );
    }
    assert_eq!(
        place_destination(&raw(DestinationKind::Other, 1), 5, size),
        Destination { page_index: 5, x: None, y_from_top: None }
    );
    let mut outside = raw(DestinationKind::Point, 1);
    outside.left = double(-3.0);
    outside.top = double(-50.0);
    assert_eq!(
        place_destination(&outside, 0, size),
        Destination {
            page_index: 0,
            x: Some(single(0.0)),
            y_from_top: Some(single(800.0)),
        }
    );
}

#[test]
fn actions_lead_inside_or_to_an_address() {
    let place = Destination { page_index: 1, x: None, y_from_top: None };
    assert_eq!(
        parse_action(LinkAction::GoTo(Some(place))),
        Some(LinkTarget::Internal(place))
    );
    assert_eq!(parse_action(LinkAction::GoTo(None)), None);
    assert_eq!(parse_action(LinkAction::Other), None);
    assert_eq!(parse_action(LinkAction::Uri(None)), None);
    assert_eq!(parse_action(LinkAction::Uri(Some(Vec::new()))), None);
    assert_eq!(
        parse_action(LinkAction::Uri(Some(b"https://a\xff".to_vec()))),
        Some(LinkTarget::Uri("https://a\u{fffd}".into()))
    );
}

#[test]
fn links_that_lead_nowhere_are_left_out() {
    let mapping = |target| LinkMapping {
        x1: double(300.0),
        y1: double(600.0),
        x2: double(150.0),
        y2: double(700.0),
        target,
    };
    let uri = LinkTarget::Uri("https://a".into());
    let links = extract_links(
        &vec![mapping(None), mapping(Some(uri.clone())), mapping(None)],
        [double(600.0), double(800.0)],
    );
    assert_eq!(links.len(), 1);
    assert_eq!(links[0].target, uri);
    assert_eq!(links[0].rect.x, single(0.25));
    assert_eq!(links[0].rect.y, single(0.125));
    assert_eq!(links[0].rect.width, single(0.25));
    assert_eq!(links[0].rect.height, single(0.125));
}
