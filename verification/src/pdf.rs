//! What the page renderer is asked for and what it answers.

pub mod laws;

use crate::annotations::NormalizedRect;
use crate::float::Real32;
use crate::float::Real64;
use crate::path::path_text;
use crate::text::decimal;
use crate::text::decimal_digits;
use std::collections::hash_map::DefaultHasher;
use std::hash::Hasher;
use vstd::prelude::*;
use vstd::std_specs::cmp::PartialEqSpecImpl;
use vstd::std_specs::hash::DefaultHasherAdditionalSpecFns;

verus! {

/// 2.0, the bits of how many buckets a point of a page is divided into.
pub const BUCKETS_PER_POINT: u32 = 0x4000_0000;

/// A place in the document that a link leads to.
#[derive(Clone, Copy, Debug)]
pub struct Destination {
    pub page_index: usize,
    pub x: Option<Real32>,
    pub y_from_top: Option<Real32>,
}

/// Where a link leads.
#[derive(Debug)]
pub enum LinkTarget {
    Internal(Destination),
    Uri(String),
}

impl Clone for LinkTarget {
    fn clone(&self) -> (r: Self)
        ensures
            r == *self,
    {
        match self {
            LinkTarget::Internal(destination) => LinkTarget::Internal(*destination),
            LinkTarget::Uri(uri) => LinkTarget::Uri(uri.clone()),
        }
    }
}

/// Whether two coordinates are given alike.
pub open spec fn same_coordinate(a: Option<Real32>, b: Option<Real32>) -> bool {
    match (a, b) {
        (Some(x), Some(y)) => x.equals(y),
        (None, None) => true,
        _ => false,
    }
}

/// Whether two coordinates are given alike.
fn coordinate_equals(a: Option<Real32>, b: Option<Real32>) -> (r: bool)
    ensures
        r == same_coordinate(a, b),
{
    match (a, b) {
        (Some(x), Some(y)) => x.equals(y),
        (None, None) => true,
        _ => false,
    }
}

impl Destination {
    /// Whether two places have the same page and equal coordinates.
    pub open spec fn same(self, other: Destination) -> bool {
        &&& self.page_index == other.page_index
        &&& same_coordinate(self.x, other.x)
        &&& same_coordinate(self.y_from_top, other.y_from_top)
    }
}

impl PartialEq for Destination {
    /// Whether two places have the same page and equal coordinates.
    fn eq(&self, other: &Destination) -> (r: bool) {
        self.page_index == other.page_index && coordinate_equals(self.x, other.x)
            && coordinate_equals(self.y_from_top, other.y_from_top)
    }
}

impl PartialEqSpecImpl for Destination {
    open spec fn obeys_eq_spec() -> bool {
        true
    }

    open spec fn eq_spec(&self, other: &Destination) -> bool {
        self.same(*other)
    }
}

impl LinkTarget {
    /// Whether two links lead to the same place.
    pub open spec fn same(self, other: LinkTarget) -> bool {
        match (self, other) {
            (LinkTarget::Internal(a), LinkTarget::Internal(b)) => a.same(b),
            (LinkTarget::Uri(a), LinkTarget::Uri(b)) => a@ == b@,
            _ => false,
        }
    }
}

impl PartialEq for LinkTarget {
    /// Whether two links lead to the same place.
    fn eq(&self, other: &LinkTarget) -> (r: bool) {
        match (self, other) {
            (LinkTarget::Internal(a), LinkTarget::Internal(b)) => *a == *b,
            (LinkTarget::Uri(a), LinkTarget::Uri(b)) => *a == *b,
            _ => false,
        }
    }
}

impl PartialEqSpecImpl for LinkTarget {
    open spec fn obeys_eq_spec() -> bool {
        true
    }

    open spec fn eq_spec(&self, other: &LinkTarget) -> bool {
        self.same(*other)
    }
}

/// A part of a page that is a link.
#[derive(Debug)]
pub struct LinkRegion {
    pub rect: NormalizedRect,
    pub target: LinkTarget,
}

impl LinkRegion {
    /// Whether two links lie and lead alike.
    pub open spec fn same(self, other: LinkRegion) -> bool {
        self.rect.same(other.rect) && self.target.same(other.target)
    }
}

impl PartialEq for LinkRegion {
    /// Whether two links lie and lead alike.
    fn eq(&self, other: &LinkRegion) -> (r: bool) {
        self.rect == other.rect && self.target == other.target
    }
}

impl PartialEqSpecImpl for LinkRegion {
    open spec fn obeys_eq_spec() -> bool {
        true
    }

    open spec fn eq_spec(&self, other: &LinkRegion) -> bool {
        self.same(*other)
    }
}

impl Clone for LinkRegion {
    fn clone(&self) -> (r: Self)
        ensures
            r == *self,
    {
        LinkRegion { rect: self.rect, target: self.target.clone() }
    }
}

/// A copy of a list of links.
pub fn copy_links(links: &Vec<LinkRegion>) -> (r: Vec<LinkRegion>)
    ensures
        r@ == links@,
{
    let mut copy: Vec<LinkRegion> = Vec::new();
    let mut i: usize = 0;
    while i < links.len()
        invariant
            i <= links@.len(),
            copy@ == links@.take(i as int),
        decreases links@.len() - i,
    {
        copy.push(links[i].clone());
        assert(links@.take(i + 1) == links@.take(i as int).push(links@[i as int]));
        i = i + 1;
    }
    assert(links@.take(links@.len() as int) == links@);
    copy
}

/// What the picture of a destination is kept under: destinations that differ by less than half
/// a point share one.
#[derive(Clone, Copy, Debug, Eq, Hash, PartialEq, Structural)]
pub struct PreviewKey {
    pub page_index: usize,
    pub x_bucket: i32,
    pub y_bucket: i32,
}

/// The bucket of a coordinate; -1 where there is none.
pub open spec fn bucket_of(coordinate: Option<Real32>) -> i32 {
    match coordinate {
        Some(value) => value.times(Real32 { bits: BUCKETS_PER_POINT }).to_i32(),
        None => (-1) as i32,
    }
}

/// The bucket of a coordinate.
fn bucket(coordinate: Option<Real32>) -> (r: i32)
    ensures
        r == bucket_of(coordinate),
{
    match coordinate {
        Some(value) => value.times(Real32 { bits: BUCKETS_PER_POINT }).to_i32(),
        None => -1,
    }
}

impl PreviewKey {
    /// The key of a destination.
    pub open spec fn key_of(destination: Destination) -> PreviewKey {
        PreviewKey {
            page_index: destination.page_index,
            x_bucket: bucket_of(destination.x),
            y_bucket: bucket_of(destination.y_from_top),
        }
    }

    /// The key of a destination.
    pub fn for_destination(destination: &Destination) -> (r: Self)
        ensures
            r == PreviewKey::key_of(*destination),
    {
        PreviewKey {
            page_index: destination.page_index,
            x_bucket: bucket(destination.x),
            y_bucket: bucket(destination.y_from_top),
        }
    }
}

/// A picture, four bytes for each pixel.
#[derive(Debug)]
pub struct RenderedImage {
    pub width: usize,
    pub height: usize,
    pub rgba: Vec<u8>,
}

impl RenderedImage {
    /// There are as many bytes as the pixels need.
    pub open spec fn wf(self) -> bool {
        self.rgba@.len() == self.width * self.height * 4
    }
}

/// What the page renderer answers.
#[derive(Debug)]
pub enum PdfResponse {
    Loaded {
        generation: u64,
        path: Vec<u8>,
        title: Option<String>,
        fingerprint: String,
        page_sizes: Vec<[Real32; 2]>,
    },
    LoadFailed { generation: u64, path: Vec<u8>, error: String },
    PageRendered {
        generation: u64,
        page_index: usize,
        pixel_size: [usize; 2],
        image: RenderedImage,
        links: Vec<LinkRegion>,
    },
    PreviewRendered { generation: u64, key: PreviewKey, image: RenderedImage },
    SelectionResolved {
        generation: u64,
        request_id: u64,
        page_index: usize,
        text: String,
        rects: Vec<NormalizedRect>,
    },
    OperationFailed { generation: u64, operation: &'static str, error: String },
}

/// What the page renderer is asked for.
#[derive(Debug)]
pub enum PdfCommand {
    Load { generation: u64, path: Vec<u8> },
    RenderPage { generation: u64, page_index: usize, pixel_size: [usize; 2] },
    RenderPreview {
        generation: u64,
        destination: Destination,
        key: PreviewKey,
        pixels_per_point: Real32,
    },
    ResolveSelection {
        generation: u64,
        request_id: u64,
        page_index: usize,
        selection: NormalizedRect,
    },
    Quit,
}

impl PdfCommand {
    /// Asks for the picture of a destination, under the key of the destination.
    pub fn render_preview(
        generation: u64,
        destination: Destination,
        pixels_per_point: Real32,
    ) -> (r: Self)
        ensures
            r == (PdfCommand::RenderPreview {
                generation,
                destination,
                key: PreviewKey::key_of(destination),
                pixels_per_point,
            }),
    {
        let key: PreviewKey = PreviewKey::for_destination(&destination);
        PdfCommand::RenderPreview { generation, destination, key, pixels_per_point }
    }

    /// The document that a command is about; ending is about none.
    pub open spec fn subject(self) -> Option<u64> {
        match self {
            PdfCommand::Load { generation, .. } => Some(generation),
            PdfCommand::RenderPage { generation, .. } => Some(generation),
            PdfCommand::RenderPreview { generation, .. } => Some(generation),
            PdfCommand::ResolveSelection { generation, .. } => Some(generation),
            PdfCommand::Quit => None,
        }
    }
}

/// What the page renderer does with a command.
#[derive(Debug)]
pub enum WorkerTask {
    /// Carry the command out.
    Perform(PdfCommand),
    /// Pass over it: it is about a document that is no longer the open one.
    Ignore,
    /// End.
    Stop,
}

/// What is found out about a document as it is opened.
#[derive(Debug)]
pub struct DocumentInfo {
    pub path: Vec<u8>,
    pub title: Option<String>,
    pub fingerprint: String,
    pub page_sizes: Vec<[Real32; 2]>,
}

/// The page renderer: the document that it has open, with the number it was asked for under.
pub struct Worker<D> {
    pub loaded: Option<(u64, D)>,
}

impl<D> Worker<D> {
    /// Whether the open document was asked for under a number.
    pub open spec fn has(self, generation: u64) -> bool {
        self.loaded matches Some((current, _)) && current == generation
    }

    /// A renderer without a document.
    pub fn new() -> (r: Self)
        ensures
            r.loaded is None,
    {
        Worker { loaded: None }
    }

    /// Decides what to do with a command: documents are always opened, and everything else is
    /// done only for the one that is open.
    pub fn accept(&self, command: PdfCommand) -> (r: WorkerTask)
        ensures
            r == (match command {
                PdfCommand::Load { .. } => WorkerTask::Perform(command),
                PdfCommand::Quit => WorkerTask::Stop,
                _ => if self.has(command.subject().unwrap()) {
                    WorkerTask::Perform(command)
                } else {
                    WorkerTask::Ignore
                },
            }),
    {
        let subject: u64 = match &command {
            PdfCommand::Load { .. } => {
                return WorkerTask::Perform(command);
            },
            PdfCommand::Quit => {
                return WorkerTask::Stop;
            },
            PdfCommand::RenderPage { generation, .. } => *generation,
            PdfCommand::RenderPreview { generation, .. } => *generation,
            PdfCommand::ResolveSelection { generation, .. } => *generation,
        };
        match &self.loaded {
            Some((current, _)) => if *current == subject {
                WorkerTask::Perform(command)
            } else {
                WorkerTask::Ignore
            },
            None => WorkerTask::Ignore,
        }
    }

    /// Takes over a document that was opened, or reports that it could not be; then the one
    /// before it stays open.
    pub fn finish_load(
        &mut self,
        generation: u64,
        path: Vec<u8>,
        outcome: Result<(D, DocumentInfo), String>,
    ) -> (r: PdfResponse)
        ensures
            match outcome {
                Ok((document, info)) => {
                    &&& final(self).loaded == Some((generation, document))
                    &&& r == (PdfResponse::Loaded {
                        generation,
                        path: info.path,
                        title: info.title,
                        fingerprint: info.fingerprint,
                        page_sizes: info.page_sizes,
                    })
                },
                Err(error) => {
                    &&& *final(self) == *old(self)
                    &&& r == (PdfResponse::LoadFailed { generation, path, error })
                },
            },
    {
        match outcome {
            Ok((document, info)) => {
                self.loaded = Some((generation, document));
                PdfResponse::Loaded {
                    generation,
                    path: info.path,
                    title: info.title,
                    fingerprint: info.fingerprint,
                    page_sizes: info.page_sizes,
                }
            },
            Err(error) => PdfResponse::LoadFailed { generation, path, error },
        }
    }
}

/// The response to a command: what was made, or why nothing was.
pub fn send_result(
    generation: u64,
    operation: &'static str,
    result: Result<PdfResponse, String>,
) -> (r: PdfResponse)
    ensures
        r == (match result {
            Ok(response) => response,
            Err(error) => PdfResponse::OperationFailed { generation, operation, error },
        }),
{
    match result {
        Ok(response) => response,
        Err(error) => PdfResponse::OperationFailed { generation, operation, error },
    }
}

/// The response to a request for a page. There is no outcome where the document has no such
/// page.
pub fn page_response(
    generation: u64,
    page_index: usize,
    pixel_size: [usize; 2],
    outcome: Option<Result<(RenderedImage, Vec<LinkRegion>), String>>,
) -> (r: PdfResponse)
    ensures
        match outcome {
            Some(Ok((image, links))) => r == (PdfResponse::PageRendered {
                generation,
                page_index,
                pixel_size,
                image,
                links,
            }),
            Some(Err(error)) => r == (PdfResponse::OperationFailed {
                generation,
                operation: "render page",
                error,
            }),
            None => r matches PdfResponse::OperationFailed { generation: g, operation, error }
                && g == generation && operation == "render page" && error@
                == "page does not exist"@,
        },
{
    let result: Result<PdfResponse, String> = match outcome {
        Some(Ok((image, links))) => Ok(
            PdfResponse::PageRendered { generation, page_index, pixel_size, image, links },
        ),
        Some(Err(error)) => Err(error),
        None => Err("page does not exist".to_owned()),
    };
    send_result(generation, "render page", result)
}

/// The response to a request for the picture of a destination.
pub fn preview_response(
    generation: u64,
    key: PreviewKey,
    outcome: Option<Result<RenderedImage, String>>,
) -> (r: PdfResponse)
    ensures
        match outcome {
            Some(Ok(image)) => r == (PdfResponse::PreviewRendered { generation, key, image }),
            Some(Err(error)) => r == (PdfResponse::OperationFailed {
                generation,
                operation: "render preview",
                error,
            }),
            None => r matches PdfResponse::OperationFailed { generation: g, operation, error }
                && g == generation && operation == "render preview" && error@
                == "preview destination page does not exist"@,
        },
{
    let result: Result<PdfResponse, String> = match outcome {
        Some(Ok(image)) => Ok(PdfResponse::PreviewRendered { generation, key, image }),
        Some(Err(error)) => Err(error),
        None => Err("preview destination page does not exist".to_owned()),
    };
    send_result(generation, "render preview", result)
}

/// The response to a request for the text in an area.
pub fn selection_response(
    generation: u64,
    request_id: u64,
    page_index: usize,
    outcome: Option<(String, Vec<NormalizedRect>)>,
) -> (r: PdfResponse)
    ensures
        match outcome {
            Some((text, rects)) => r == (PdfResponse::SelectionResolved {
                generation,
                request_id,
                page_index,
                text,
                rects,
            }),
            None => r matches PdfResponse::OperationFailed { generation: g, operation, error }
                && g == generation && operation == "select text" && error@
                == "selection page does not exist"@,
        },
{
    let result: Result<PdfResponse, String> = match outcome {
        Some((text, rects)) => Ok(
            PdfResponse::SelectionResolved { generation, request_id, page_index, text, rects },
        ),
        None => Err("selection page does not exist".to_owned()),
    };
    send_result(generation, "select text", result)
}

/// How many pages a document has by what the renderer reports.
pub open spec fn pages_reported(n_pages: i32) -> nat {
    if n_pages > 0 {
        n_pages as nat
    } else {
        0
    }
}

/// How many pages a document has.
pub fn page_count(n_pages: i32) -> (r: usize)
    ensures
        r == pages_reported(n_pages),
{
    if n_pages > 0 {
        n_pages as usize
    } else {
        0
    }
}

/// The position of the first page that is missing, or how many pages there are.
pub open spec fn first_missing(sizes: Seq<Option<[Real64; 2]>>) -> int
    decreases sizes.len(),
{
    if sizes.len() == 0 || sizes.first() is None {
        0
    } else {
        1 + first_missing(sizes.drop_first())
    }
}

proof fn lemma_first_missing(sizes: Seq<Option<[Real64; 2]>>, k: int)
    requires
        0 <= k <= sizes.len(),
        forall|i: int| 0 <= i < k ==> #[trigger] sizes[i] is Some,
        k < sizes.len() ==> sizes[k] is None,
    ensures
        first_missing(sizes) == k,
    decreases sizes.len(),
{
    if k > 0 {
        assert(sizes[0] is Some);
        let rest = sizes.drop_first();
        assert forall|i: int| 0 <= i < k - 1 implies #[trigger] rest[i] is Some by {
            assert(rest[i] == sizes[i + 1]);
        }
        if k < sizes.len() {
            assert(rest[k - 1] == sizes[k]);
        }
        lemma_first_missing(rest, k - 1);
    }
}

/// The sizes of the pages of a document from what the renderer says of each page in turn: a
/// document has at least one page, and every page can be looked at.
pub fn inspect_pages(sizes: &Vec<Option<[Real64; 2]>>) -> (r: Result<Vec<[Real32; 2]>, String>)
    ensures
        match r {
            Ok(page_sizes) => {
                &&& sizes@.len() > 0
                &&& first_missing(sizes@) == sizes@.len()
                &&& page_sizes@.len() == sizes@.len()
                &&& forall|i: int|
                    0 <= i < sizes@.len() ==> sizes@[i] is Some && (#[trigger] page_sizes@[i])@
                        == seq![
                        sizes@[i].unwrap()[0].narrowed(),
                        sizes@[i].unwrap()[1].narrowed(),
                    ]
            },
            Err(error) => {
                ||| sizes@.len() == 0 && error@ == "the PDF has no pages"@
                ||| sizes@.len() > 0 && first_missing(sizes@) < sizes@.len() && error@
                    == "could not inspect page "@ + decimal_digits(
                    (first_missing(sizes@) + 1) as nat,
                )
            },
        },
{
    if sizes.len() == 0 {
        return Err("the PDF has no pages".to_owned());
    }
    let mut page_sizes: Vec<[Real32; 2]> = Vec::new();
    let mut i: usize = 0;
    while i < sizes.len()
        invariant
            i <= sizes@.len(),
            sizes@.len() > 0,
            page_sizes@.len() == i,
            forall|k: int| 0 <= k < i ==> #[trigger] sizes@[k] is Some,
            forall|k: int|
                0 <= k < i ==> sizes@[k] is Some && (#[trigger] page_sizes@[k])@ == seq![
                    sizes@[k].unwrap()[0].narrowed(),
                    sizes@[k].unwrap()[1].narrowed(),
                ],
        decreases sizes@.len() - i,
    {
        match sizes[i] {
            None => {
                proof {
                    lemma_first_missing(sizes@, i as int);
                }
                return Err(
                    "could not inspect page ".to_owned().concat(decimal(i as u64 + 1).as_str()),
                );
            },
            Some(size) => {
                let narrow: [Real32; 2] = [size[0].narrowed(), size[1].narrowed()];
                assert(narrow@ =~= seq![size[0].narrowed(), size[1].narrowed()]);
                page_sizes.push(narrow);
            },
        }
        i = i + 1;
    }
    proof {
        lemma_first_missing(sizes@, i as int);
    }
    Ok(page_sizes)
}

/// Where opening a document can fail outside of its pages.
#[derive(Clone, Copy, Debug, PartialEq, Eq, Structural)]
pub enum LoadStage {
    Locate,
    Name,
    Open,
    Fingerprint,
}

/// Text on why a document could not be opened.
pub fn load_error(stage: LoadStage, path: &[u8], error: &str) -> (r: String)
    ensures
        r@ == (match stage {
            LoadStage::Locate => "could not open "@ + crate::path::lossy_text(path@) + ": "@ + error@,
            LoadStage::Name => "could not convert path to URI: "@ + error@,
            LoadStage::Open => "Poppler could not open the PDF: "@ + error@,
            LoadStage::Fingerprint => "could not fingerprint the PDF: "@ + error@,
        }),
{
    match stage {
        LoadStage::Locate => "could not open ".to_owned().concat(path_text(path).as_str()).concat(
            ": ",
        ).concat(error),
        LoadStage::Name => "could not convert path to URI: ".to_owned().concat(error),
        LoadStage::Open => "Poppler could not open the PDF: ".to_owned().concat(error),
        LoadStage::Fingerprint => "could not fingerprint the PDF: ".to_owned().concat(error),
    }
}

/// The bytes of a number from the lowest up, as many as are asked for.
pub open spec fn low_bytes(value: nat, count: nat) -> Seq<u8>
    decreases count,
{
    if count == 0 {
        Seq::empty()
    } else {
        seq![(value % 256) as u8] + low_bytes(value / 256, (count - 1) as nat)
    }
}

/// The bytes that a number has in memory, on a machine that puts the lowest byte first or last.
pub open spec fn word_bytes(value: usize, lowest_first: bool) -> Seq<u8> {
    let bytes = low_bytes(value as nat, (usize::BITS / 8) as nat);
    if lowest_first {
        bytes
    } else {
        bytes.reverse()
    }
}

/// `usize::to_ne_bytes`: the bytes that a number has in memory. They stand in one of two orders;
/// which one is up to the machine and is not said.
#[verifier::external_body]
fn native_bytes(value: usize) -> (r: Vec<u8>)
    ensures
        r@ == word_bytes(value, true) || r@ == word_bytes(value, false),
{
    value.to_ne_bytes().to_vec()
}

/// Zero has no byte that is not zero.
proof fn lemma_bytes_of_zero(count: nat)
    ensures
        low_bytes(0, count).len() == count,
        forall|i: int| 0 <= i < count ==> #[trigger] low_bytes(0, count)[i] == 0,
    decreases count,
{
    if count > 0 {
        lemma_bytes_of_zero((count - 1) as nat);
    }
}

/// Whether a machine puts the lowest byte first, by the bytes that it has for the number one.
pub fn puts_lowest_first(one: &[u8]) -> (r: bool)
    requires
        one@ == word_bytes(1, true) || one@ == word_bytes(1, false),
    ensures
        r == (one@ == word_bytes(1, true)),
        !r == (one@ == word_bytes(1, false)),
{
    proof {
        let width = (usize::BITS / 8) as nat;
        lemma_bytes_of_zero((width - 1) as nat);
        assert(low_bytes(1, width) == seq![1u8] + low_bytes(0, (width - 1) as nat));
        assert(word_bytes(1, true)[0] == 1);
        assert(word_bytes(1, false)[0] == 0);
    }
    one[0] == 1
}

/// The bytes that a number has in memory, on a machine that puts the lowest byte first or last.
fn bytes_in_order(value: usize, lowest_first: bool) -> (r: Vec<u8>)
    ensures
        r@ == word_bytes(value, lowest_first),
{
    let width: u32 = usize::BITS / 8;
    let mut bytes: Vec<u8> = Vec::new();
    let mut rest: usize = value;
    let mut i: u32 = 0;
    while i < width
        invariant
            i <= width,
            bytes@ + low_bytes(rest as nat, (width - i) as nat) == low_bytes(
                value as nat,
                width as nat,
            ),
        decreases width - i,
    {
        let ghost left = low_bytes((rest / 256) as nat, (width - i - 1) as nat);
        let byte: u8 = (rest % 256) as u8;
        assert(low_bytes(rest as nat, (width - i) as nat) == seq![byte] + left);
        assert(bytes@ + (seq![byte] + left) =~= bytes@.push(byte) + left);
        bytes.push(byte);
        rest = rest / 256;
        i = i + 1;
    }
    assert(bytes@ + low_bytes(rest as nat, 0) =~= bytes@);
    if lowest_first {
        return bytes;
    }
    let mut turned: Vec<u8> = Vec::new();
    let mut k: usize = bytes.len();
    while k > 0
        invariant
            k <= bytes@.len(),
            turned@ == bytes@.skip(k as int).reverse(),
        decreases k,
    {
        k = k - 1;
        turned.push(bytes[k]);
        assert(turned@ =~= bytes@.skip(k as int).reverse());
    }
    assert(bytes@.skip(0) =~= bytes@);
    turned
}

/// The pieces that a page and its size are hashed by: the page, how many numbers the size has,
/// and these numbers, each with the bytes that it has in memory.
pub open spec fn cache_label(
    page_index: usize,
    pixel_size: [usize; 2],
    lowest_first: bool,
) -> Seq<Seq<u8>> {
    seq![
        word_bytes(page_index, lowest_first),
        word_bytes(2, lowest_first),
        word_bytes(pixel_size[0], lowest_first) + word_bytes(pixel_size[1], lowest_first),
    ]
}

/// A number for the name of a page's picture, on a machine that puts the lowest byte first or last.
pub open spec fn cache_hash(page_index: usize, pixel_size: [usize; 2], lowest_first: bool) -> u64 {
    DefaultHasher::spec_finish(cache_label(page_index, pixel_size, lowest_first))
}

/// A number for the name of a page's picture, on a machine that puts the lowest byte first or last.
pub fn hash_in_order(page_index: usize, pixel_size: [usize; 2], lowest_first: bool) -> (r: u64)
    ensures
        r == cache_hash(page_index, pixel_size, lowest_first),
{
    let mut hasher: DefaultHasher = DefaultHasher::new();
    let page: Vec<u8> = bytes_in_order(page_index, lowest_first);
    hasher.write(page.as_slice());
    let count: Vec<u8> = bytes_in_order(2, lowest_first);
    hasher.write(count.as_slice());
    let mut size: Vec<u8> = bytes_in_order(pixel_size[0], lowest_first);
    let height: Vec<u8> = bytes_in_order(pixel_size[1], lowest_first);
    size.extend_from_slice(height.as_slice());
    assert(size@ =~= word_bytes(pixel_size[0], lowest_first) + word_bytes(
        pixel_size[1],
        lowest_first,
    ));
    hasher.write(size.as_slice());
    assert(hasher@ =~= cache_label(page_index, pixel_size, lowest_first));
    hasher.finish()
}

/// A number for the name of a page's picture: that of the order in which this machine puts its
/// bytes. Which order that is, is up to the machine and is not said.
pub fn render_cache_hash(page_index: usize, pixel_size: [usize; 2]) -> (r: u64)
    ensures
        r == cache_hash(page_index, pixel_size, true) || r == cache_hash(
            page_index,
            pixel_size,
            false,
        ),
{
    let one: Vec<u8> = native_bytes(1);
    hash_in_order(page_index, pixel_size, puts_lowest_first(one.as_slice()))
}

} // verus!
