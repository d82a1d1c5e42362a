//! Highlights and notes on a document, and the sidecar file that keeps them.

pub mod laws;

use crate::float::real32::lemma_distance_is_symmetric;
use crate::float::Real32;
use crate::path::append_suffix;
use crate::path::sidecar_of;
use crate::path::sidecar_path;
use crate::path::with_suffix;
use std::collections::HashSet;
use vstd::prelude::*;
use vstd::std_specs::cmp::PartialEqSpecImpl;
use vstd::utf8::encode_utf8;

verus! {

/// The version of the sidecar file that is written and read.
pub const SCHEMA_VERSION: u32 = 1;

/// How many bytes a text of an annotation may have.
pub const TEXT_LIMIT: usize = 1_000_000;

/// 1.001, the bits of the largest coordinate that a rectangle may reach.
pub const RECT_LIMIT: u32 = 0x3f80_20c5;

/// A rectangle on a page, in fractions of the page from its upper left corner.
#[derive(Clone, Copy, Debug)]
pub struct NormalizedRect {
    pub x: Real32,
    pub y: Real32,
    pub width: Real32,
    pub height: Real32,
}

impl NormalizedRect {
    /// Whether two rectangles have equal numbers.
    pub open spec fn same(self, other: NormalizedRect) -> bool {
        &&& self.x.equals(other.x)
        &&& self.y.equals(other.y)
        &&& self.width.equals(other.width)
        &&& self.height.equals(other.height)
    }
}

impl PartialEq for NormalizedRect {
    /// Whether two rectangles have equal numbers.
    fn eq(&self, other: &NormalizedRect) -> (r: bool) {
        self.x.equals(other.x) && self.y.equals(other.y) && self.width.equals(other.width)
            && self.height.equals(other.height)
    }
}

impl PartialEqSpecImpl for NormalizedRect {
    open spec fn obeys_eq_spec() -> bool {
        true
    }

    open spec fn eq_spec(&self, other: &NormalizedRect) -> bool {
        self.same(*other)
    }
}

impl Default for NormalizedRect {
    /// The empty rectangle in the corner.
    fn default() -> (r: Self)
        ensures
            r == (NormalizedRect {
                x: Real32 { bits: 0 },
                y: Real32 { bits: 0 },
                width: Real32 { bits: 0 },
                height: Real32 { bits: 0 },
            }),
    {
        let zero: Real32 = Real32 { bits: 0 };
        NormalizedRect { x: zero, y: zero, width: zero, height: zero }
    }
}

impl NormalizedRect {
    /// The rectangle that has two points as opposite corners.
    pub open spec fn spanned(a: [Real32; 2], b: [Real32; 2]) -> NormalizedRect {
        NormalizedRect {
            x: a[0].smaller(b[0]),
            y: a[1].smaller(b[1]),
            width: a[0].minus(b[0]).absolute(),
            height: a[1].minus(b[1]).absolute(),
        }
    }

    /// The rectangle that has two points as opposite corners.
    pub fn from_points(a: [Real32; 2], b: [Real32; 2]) -> (r: Self)
        ensures
            r == NormalizedRect::spanned(a, b),
    {
        NormalizedRect {
            x: a[0].smaller(b[0]),
            y: a[1].smaller(b[1]),
            width: a[0].minus(b[0]).absolute(),
            height: a[1].minus(b[1]).absolute(),
        }
    }

    /// Whether a point lies in the rectangle or on its edge.
    pub open spec fn covers(self, point: [Real32; 2]) -> bool {
        &&& self.x.up_to(point[0])
        &&& point[0].up_to(self.x.plus(self.width))
        &&& self.y.up_to(point[1])
        &&& point[1].up_to(self.y.plus(self.height))
    }

    /// Whether a point lies in the rectangle or on its edge.
    pub fn contains(self, point: [Real32; 2]) -> (r: bool)
        ensures
            r == self.covers(point),
    {
        self.x.up_to(point[0]) && point[0].up_to(self.x.plus(self.width)) && self.y.up_to(point[1])
            && point[1].up_to(self.y.plus(self.height))
    }

    /// Whether this is a rectangle with an area on the page.
    pub open spec fn valid(self) -> bool {
        let zero = Real32 { bits: 0 };
        let limit = Real32 { bits: RECT_LIMIT };
        &&& self.x.is_finite() && self.y.is_finite()
        &&& self.width.is_finite() && self.height.is_finite()
        &&& zero.up_to(self.x) && zero.up_to(self.y)
        &&& zero.less(self.width) && zero.less(self.height)
        &&& self.x.plus(self.width).up_to(limit)
        &&& self.y.plus(self.height).up_to(limit)
    }

    /// Whether this is a rectangle with an area on the page.
    pub fn is_valid(self) -> (r: bool)
        ensures
            r == self.valid(),
    {
        let zero: Real32 = Real32 { bits: 0 };
        let limit: Real32 = Real32 { bits: RECT_LIMIT };
        self.x.is_finite() && self.y.is_finite() && self.width.is_finite()
            && self.height.is_finite() && zero.up_to(self.x) && zero.up_to(self.y) && zero.less(
            self.width,
        ) && zero.less(self.height) && self.x.plus(self.width).up_to(limit) && self.y.plus(
            self.height,
        ).up_to(limit)
    }
}

/// A highlight on a page, with the note attached to it.
#[derive(Debug)]
pub struct Annotation {
    pub id: u64,
    pub page_index: usize,
    pub rects: Vec<NormalizedRect>,
    pub selected_text: String,
    pub note: String,
}

/// What an annotation says.
#[verifier::ext_equal]
pub struct AnnotationView {
    pub id: u64,
    pub page_index: usize,
    pub rects: Seq<NormalizedRect>,
    pub selected_text: Seq<char>,
    pub note: Seq<char>,
}

impl View for Annotation {
    type V = AnnotationView;

    open spec fn view(&self) -> AnnotationView {
        AnnotationView {
            id: self.id,
            page_index: self.page_index,
            rects: self.rects@,
            selected_text: self.selected_text@,
            note: self.note@,
        }
    }
}

/// A copy of a list of rectangles.
pub fn copy_rects(rects: &Vec<NormalizedRect>) -> (r: Vec<NormalizedRect>)
    ensures
        r@ == rects@,
{
    let mut copy: Vec<NormalizedRect> = Vec::new();
    let mut i: usize = 0;
    while i < rects.len()
        invariant
            i <= rects@.len(),
            copy@ == rects@.take(i as int),
        decreases rects@.len() - i,
    {
        copy.push(rects[i]);
        assert(rects@.take(i + 1) == rects@.take(i as int).push(rects@[i as int]));
        i = i + 1;
    }
    assert(rects@.take(rects@.len() as int) == rects@);
    copy
}

/// Whether two lists hold equal rectangles in the same order.
pub open spec fn same_rects(a: Seq<NormalizedRect>, b: Seq<NormalizedRect>) -> bool {
    &&& a.len() == b.len()
    &&& forall|i: int| 0 <= i < a.len() ==> (#[trigger] a[i]).same(b[i])
}

/// Whether two lists hold equal rectangles in the same order.
fn rects_equal(a: &Vec<NormalizedRect>, b: &Vec<NormalizedRect>) -> (r: bool)
    ensures
        r == same_rects(a@, b@),
{
    if a.len() != b.len() {
        return false;
    }
    let mut i: usize = 0;
    while i < a.len()
        invariant
            i <= a@.len(),
            a@.len() == b@.len(),
            forall|k: int| 0 <= k < i ==> (#[trigger] a@[k]).same(b@[k]),
        decreases a@.len() - i,
    {
        if !(a[i] == b[i]) {
            assert(!a@[i as int].same(b@[i as int]));
            return false;
        }
        i = i + 1;
    }
    true
}

impl PartialEq for Annotation {
    /// Whether two annotations say the same, with equal rectangles.
    fn eq(&self, other: &Annotation) -> (r: bool) {
        self.id == other.id && self.page_index == other.page_index && rects_equal(
            &self.rects,
            &other.rects,
        ) && self.selected_text == other.selected_text && self.note == other.note
    }
}

impl PartialEqSpecImpl for Annotation {
    open spec fn obeys_eq_spec() -> bool {
        true
    }

    open spec fn eq_spec(&self, other: &Annotation) -> bool {
        &&& self.id == other.id
        &&& self.page_index == other.page_index
        &&& same_rects(self.rects@, other.rects@)
        &&& self.selected_text@ == other.selected_text@
        &&& self.note@ == other.note@
    }
}

impl Clone for Annotation {
    fn clone(&self) -> (r: Self)
        ensures
            r@ == self@,
    {
        Annotation {
            id: self.id,
            page_index: self.page_index,
            rects: copy_rects(&self.rects),
            selected_text: self.selected_text.clone(),
            note: self.note.clone(),
        }
    }
}

/// What each annotation of a list says.
pub open spec fn annotation_views(annotations: Seq<Annotation>) -> Seq<AnnotationView> {
    annotations.map_values(|annotation: Annotation| annotation@)
}

/// A copy of a list of annotations.
pub fn copy_annotations(annotations: &[Annotation]) -> (r: Vec<Annotation>)
    ensures
        annotation_views(r@) == annotation_views(annotations@),
{
    let mut copy: Vec<Annotation> = Vec::new();
    let mut i: usize = 0;
    while i < annotations.len()
        invariant
            i <= annotations@.len(),
            annotation_views(copy@) == annotation_views(annotations@).take(i as int),
        decreases annotations@.len() - i,
    {
        let ghost before = copy@;
        copy.push(annotations[i].clone());
        assert(annotation_views(copy@) =~= annotation_views(before).push(annotations@[i as int]@));
        assert(annotation_views(annotations@).take(i + 1) =~= annotation_views(annotations@).take(
            i as int,
        ).push(annotations@[i as int]@));
        i = i + 1;
    }
    assert(annotation_views(annotations@).take(annotations@.len() as int) =~= annotation_views(
        annotations@,
    ));
    copy
}

/// Whether an annotation by itself can be one of a document.
pub open spec fn annotation_valid(annotation: AnnotationView, page_count: nat) -> bool {
    &&& annotation.id > 0
    &&& annotation.page_index < page_count
    &&& annotation.rects.len() > 0
    &&& forall|k: int| 0 <= k < annotation.rects.len() ==> (#[trigger] annotation.rects[k]).valid()
    &&& encode_utf8(annotation.selected_text).len() <= TEXT_LIMIT
    &&& encode_utf8(annotation.note).len() <= TEXT_LIMIT
}

/// No two annotations have the same identifier.
pub open spec fn ids_distinct(annotations: Seq<AnnotationView>) -> bool {
    forall|i: int, j: int|
        0 <= i < j < annotations.len() ==> (#[trigger] annotations[i]).id != (
        #[trigger] annotations[j]).id
}

/// Whether annotations can be those of a document.
pub open spec fn annotations_valid(annotations: Seq<AnnotationView>, page_count: nat) -> bool {
    &&& forall|i: int|
        0 <= i < annotations.len() ==> annotation_valid(#[trigger] annotations[i], page_count)
    &&& ids_distinct(annotations)
}

/// Whether every rectangle of a list has an area on the page.
fn rects_valid(rects: &Vec<NormalizedRect>) -> (r: bool)
    ensures
        r == (forall|k: int| 0 <= k < rects@.len() ==> (#[trigger] rects@[k]).valid()),
{
    let mut k: usize = 0;
    while k < rects.len()
        invariant
            k <= rects@.len(),
            forall|j: int| 0 <= j < k ==> (#[trigger] rects@[j]).valid(),
        decreases rects@.len() - k,
    {
        if !rects[k].is_valid() {
            return false;
        }
        k = k + 1;
    }
    true
}

/// Whether annotations can be those of a document with so many pages.
pub fn valid_annotations(annotations: &[Annotation], page_count: usize) -> (r: bool)
    ensures
        r == annotations_valid(annotation_views(annotations@), page_count as nat),
{
    broadcast use vstd::std_specs::hash::group_hash_axioms;

    let mut ids: HashSet<u64> = HashSet::new();
    let mut i: usize = 0;
    let ghost views = annotation_views(annotations@);
    while i < annotations.len()
        invariant
            i <= annotations@.len(),
            views == annotation_views(annotations@),
            forall|k: int|
                0 <= k < i ==> annotation_valid(#[trigger] views[k], page_count as nat),
            ids_distinct(views.take(i as int)),
            forall|id: u64|
                ids@.contains(id) <==> exists|k: int| 0 <= k < i && (#[trigger] views[k]).id == id,
        decreases annotations@.len() - i,
    {
        let annotation: &Annotation = &annotations[i];
        assert(views[i as int] == annotation@);
        if !(annotation.id > 0 && annotation.page_index < page_count && annotation.rects.len() > 0
            && rects_valid(&annotation.rects) && annotation.selected_text.as_str().as_bytes().len()
            <= TEXT_LIMIT && annotation.note.as_str().as_bytes().len() <= TEXT_LIMIT) {
            assert(!annotation_valid(views[i as int], page_count as nat));
            return false;
        }
        if !ids.insert(annotation.id) {
            proof {
                let k = choose|k: int| 0 <= k < i && (#[trigger] views[k]).id == annotation.id;
                assert(views[k].id == views[i as int].id);
            }
            return false;
        }
        proof {
            assert forall|a: int, b: int| 0 <= a < b < i + 1 implies (#[trigger] views.take(
                i + 1,
            )[a]).id != (#[trigger] views.take(i + 1)[b]).id by {
                assert(views.take(i + 1)[a] == views[a] && views.take(i + 1)[b] == views[b]);
                if b < i {
                    assert(views.take(i as int)[a] == views[a]);
                    assert(views.take(i as int)[b] == views[b]);
                }
            }
            assert forall|id: u64| ids@.contains(id) implies exists|k: int|
                0 <= k < i + 1 && (#[trigger] views[k]).id == id by {
                if id == annotation.id {
                    assert(views[i as int].id == id);
                } else {
                    let k = choose|k: int| 0 <= k < i && (#[trigger] views[k]).id == id;
                    assert(views[k].id == id);
                }
            }
        }
        i = i + 1;
    }
    assert(views.take(i as int) =~= views);
    true
}

/// What a sidecar file holds.
#[derive(Debug)]
pub struct AnnotationFile {
    pub schema_version: u32,
    pub document_fingerprint: String,
    pub annotations: Vec<Annotation>,
}

/// What a sidecar file says.
#[verifier::ext_equal]
pub struct AnnotationFileView {
    pub schema_version: u32,
    pub document_fingerprint: Seq<char>,
    pub annotations: Seq<AnnotationView>,
}

impl View for AnnotationFile {
    type V = AnnotationFileView;

    open spec fn view(&self) -> AnnotationFileView {
        AnnotationFileView {
            schema_version: self.schema_version,
            document_fingerprint: self.document_fingerprint@,
            annotations: annotation_views(self.annotations@),
        }
    }
}

/// What was found where a sidecar file should be.
#[derive(Debug)]
pub enum Sidecar {
    Missing,
    Unreadable(String),
    Malformed(String),
    Present(AnnotationFile),
}

/// Why a sidecar file was not used.
#[derive(Debug)]
pub enum LoadWarning {
    Read(String),
    Parse(String),
    Schema(u32),
    Fingerprint,
    InvalidData,
}

/// Text for the user on why a sidecar file was not used.
pub open spec fn warning_text(warning: LoadWarning) -> Seq<char> {
    match warning {
        LoadWarning::Read(error) => "could not read annotation sidecar: "@ + error@,
        LoadWarning::Parse(error) => "could not parse annotation sidecar: "@ + error@,
        LoadWarning::Schema(version) => "annotation sidecar uses unsupported schema version "@
            + crate::text::decimal_digits(version as nat),
        LoadWarning::Fingerprint =>
            "annotation sidecar belongs to a different version of this PDF"@,
        LoadWarning::InvalidData => "annotation sidecar contains invalid annotation data"@,
    }
}

impl LoadWarning {
    /// Text for the user.
    pub fn message(&self) -> (r: String)
        ensures
            r@ == warning_text(*self),
    {
        match self {
            LoadWarning::Read(error) => "could not read annotation sidecar: ".to_owned().concat(
                error.as_str(),
            ),
            LoadWarning::Parse(error) => "could not parse annotation sidecar: ".to_owned().concat(
                error.as_str(),
            ),
            LoadWarning::Schema(version) =>
                "annotation sidecar uses unsupported schema version ".to_owned().concat(
                crate::text::decimal(*version as u64).as_str(),
            ),
            LoadWarning::Fingerprint =>
                "annotation sidecar belongs to a different version of this PDF".to_owned(),
            LoadWarning::InvalidData =>
                "annotation sidecar contains invalid annotation data".to_owned(),
        }
    }
}

/// The annotations of the open document, and whether they have yet to be written.
#[derive(Debug)]
pub struct AnnotationStore {
    path: Vec<u8>,
    fingerprint: String,
    annotations: Vec<Annotation>,
    next_id: u64,
    dirty_since: Option<u64>,
    preserve_existing: bool,
}

/// What a store holds. Times are nanoseconds on one clock.
#[verifier::ext_equal]
pub struct StoreView {
    pub path: Seq<u8>,
    pub fingerprint: Seq<char>,
    pub annotations: Seq<AnnotationView>,
    pub next_id: u64,
    pub dirty_since: Option<u64>,
    pub preserve_existing: bool,
}

impl View for AnnotationStore {
    type V = StoreView;

    closed spec fn view(&self) -> StoreView {
        StoreView {
            path: self.path@,
            fingerprint: self.fingerprint@,
            annotations: annotation_views(self.annotations@),
            next_id: self.next_id,
            dirty_since: self.dirty_since,
            preserve_existing: self.preserve_existing,
        }
    }
}

/// A store without annotations.
pub open spec fn empty_store(
    pdf_path: Seq<u8>,
    fingerprint: Seq<char>,
    preserve_existing: bool,
) -> StoreView {
    StoreView {
        path: sidecar_of(pdf_path),
        fingerprint,
        annotations: Seq::empty(),
        next_id: 1,
        dirty_since: None,
        preserve_existing,
    }
}

/// The largest identifier, or zero.
pub open spec fn largest_id(annotations: Seq<AnnotationView>) -> u64
    decreases annotations.len(),
{
    if annotations.len() == 0 {
        0
    } else {
        let before = largest_id(annotations.drop_last());
        if annotations.last().id > before {
            annotations.last().id
        } else {
            before
        }
    }
}

/// One more, if there is one more.
pub open spec fn successor(id: u64) -> u64 {
    if id == u64::MAX {
        id
    } else {
        (id + 1) as u64
    }
}

/// What an accepted sidecar file makes of the store.
pub open spec fn filled_store(
    pdf_path: Seq<u8>,
    fingerprint: Seq<char>,
    annotations: Seq<AnnotationView>,
) -> StoreView {
    StoreView {
        annotations,
        next_id: successor(largest_id(annotations)),
        ..empty_store(pdf_path, fingerprint, false)
    }
}

/// Why the contents of a sidecar file are refused, if they are: the version is looked at first
/// and the annotations last.
pub open spec fn refusal(
    file: AnnotationFileView,
    fingerprint: Seq<char>,
    page_count: nat,
) -> Option<LoadWarning> {
    if file.schema_version != SCHEMA_VERSION {
        Some(LoadWarning::Schema(file.schema_version))
    } else if file.document_fingerprint != fingerprint {
        Some(LoadWarning::Fingerprint)
    } else if !annotations_valid(file.annotations, page_count) {
        Some(LoadWarning::InvalidData)
    } else {
        None
    }
}

/// What is loaded with a document, and what the user is warned of.
pub open spec fn load_outcome(
    pdf_path: Seq<u8>,
    fingerprint: Seq<char>,
    page_count: nat,
    sidecar: Sidecar,
) -> (StoreView, Option<LoadWarning>) {
    match sidecar {
        Sidecar::Missing => (empty_store(pdf_path, fingerprint, false), None),
        Sidecar::Unreadable(error) => (
            empty_store(pdf_path, fingerprint, true),
            Some(LoadWarning::Read(error)),
        ),
        Sidecar::Malformed(error) => (
            empty_store(pdf_path, fingerprint, true),
            Some(LoadWarning::Parse(error)),
        ),
        Sidecar::Present(file) => match refusal(file@, fingerprint, page_count) {
            Some(warning) => (empty_store(pdf_path, fingerprint, true), Some(warning)),
            None => (filled_store(pdf_path, fingerprint, file@.annotations), None),
        },
    }
}

/// What a save does next, or whether it is finished.
#[derive(Debug)]
pub enum SaveAction {
    /// There is nothing more to do.
    Finish,
    /// Find out whether the sidecar file exists.
    LookForSidecar { path: Vec<u8> },
    /// Find out whether a backup of it exists.
    LookForBackup { path: Vec<u8> },
    /// Copy the sidecar file to its backup.
    Copy { from: Vec<u8>, to: Vec<u8> },
    /// Write a whole new file and wait until it is on the disk.
    Write { path: Vec<u8>, file: AnnotationFile },
    /// Put the new file in the place of the sidecar file.
    Rename { from: Vec<u8>, to: Vec<u8> },
}

/// What a save does next, by what it says.
pub enum SaveActionView {
    Finish,
    LookForSidecar { path: Seq<u8> },
    LookForBackup { path: Seq<u8> },
    Copy { from: Seq<u8>, to: Seq<u8> },
    Write { path: Seq<u8>, file: AnnotationFileView },
    Rename { from: Seq<u8>, to: Seq<u8> },
}

impl View for SaveAction {
    type V = SaveActionView;

    open spec fn view(&self) -> SaveActionView {
        match *self {
            SaveAction::Finish => SaveActionView::Finish,
            SaveAction::LookForSidecar { path } => SaveActionView::LookForSidecar { path: path@ },
            SaveAction::LookForBackup { path } => SaveActionView::LookForBackup { path: path@ },
            SaveAction::Copy { from, to } => SaveActionView::Copy { from: from@, to: to@ },
            SaveAction::Write { path, file } => SaveActionView::Write { path: path@, file: file@ },
            SaveAction::Rename { from, to } => SaveActionView::Rename { from: from@, to: to@ },
        }
    }
}

/// What has happened to a save: it begins, or what it wanted was done. A failure ends it and
/// leaves the store as it is.
#[derive(Clone, Copy, Debug, PartialEq, Eq, Structural)]
pub enum SaveEvent {
    Begin,
    Sidecar { exists: bool },
    Backup { exists: bool },
    Copied,
    Written,
    Renamed,
}

/// The file that a store is written as.
pub open spec fn file_of(store: StoreView) -> AnnotationFileView {
    AnnotationFileView {
        schema_version: SCHEMA_VERSION,
        document_fingerprint: store.fingerprint,
        annotations: store.annotations,
    }
}

/// Where a file that was refused is kept.
pub open spec fn backup_of(store: StoreView) -> Seq<u8> {
    with_suffix(store.path, ".bak"@)
}

/// Where a new file is written before it takes the place of the old one.
pub open spec fn draft_of(store: StoreView) -> Seq<u8> {
    with_suffix(store.path, ".tmp"@)
}

/// Writing the store as a new file.
pub open spec fn write_action(store: StoreView) -> SaveActionView {
    SaveActionView::Write { path: draft_of(store), file: file_of(store) }
}

/// How a save goes on. A file that was refused when the document was opened is copied first,
/// unless there is a copy of it already.
pub open spec fn save_step(store: StoreView, event: SaveEvent) -> (StoreView, SaveActionView) {
    match event {
        SaveEvent::Begin => if store.dirty_since is None {
            (store, SaveActionView::Finish)
        } else if store.preserve_existing {
            (store, SaveActionView::LookForSidecar { path: store.path })
        } else {
            (store, write_action(store))
        },
        SaveEvent::Sidecar { exists } => if exists {
            (store, SaveActionView::LookForBackup { path: backup_of(store) })
        } else {
            (store, write_action(store))
        },
        SaveEvent::Backup { exists } => if exists {
            (StoreView { preserve_existing: false, ..store }, write_action(store))
        } else {
            (store, SaveActionView::Copy { from: store.path, to: backup_of(store) })
        },
        SaveEvent::Copied => (StoreView { preserve_existing: false, ..store }, write_action(store)),
        SaveEvent::Written => (
            store,
            SaveActionView::Rename { from: draft_of(store), to: store.path },
        ),
        SaveEvent::Renamed => (
            StoreView { dirty_since: None, ..store },
            SaveActionView::Finish,
        ),
    }
}

/// The position of the first annotation with an identifier, or how many there are.
pub open spec fn first_with_id(annotations: Seq<AnnotationView>, id: u64) -> int
    decreases annotations.len(),
{
    if annotations.len() == 0 || annotations.first().id == id {
        0
    } else {
        1 + first_with_id(annotations.drop_first(), id)
    }
}

/// The first annotation with an identifier is one, and none before it has the identifier.
pub proof fn lemma_first_with_id(annotations: Seq<AnnotationView>, id: u64, k: int)
    requires
        0 <= k <= annotations.len(),
        forall|i: int| 0 <= i < k ==> (#[trigger] annotations[i]).id != id,
        k < annotations.len() ==> annotations[k].id == id,
    ensures
        first_with_id(annotations, id) == k,
    decreases annotations.len(),
{
    if k > 0 {
        assert(annotations[0].id != id);
        let rest = annotations.drop_first();
        assert forall|i: int| 0 <= i < k - 1 implies (#[trigger] rest[i]).id != id by {
            assert(rest[i] == annotations[i + 1]);
        }
        if k < annotations.len() {
            assert(rest[k - 1] == annotations[k]);
        }
        lemma_first_with_id(rest, id, k - 1);
    }
}

/// The annotations without those that have an identifier.
pub open spec fn without_id(annotations: Seq<AnnotationView>, id: u64) -> Seq<AnnotationView> {
    annotations.filter(|annotation: AnnotationView| annotation.id != id)
}

impl AnnotationStore {
    /// Makes the store of a document from what was found where its sidecar file should be.
    pub fn load(
        pdf_path: &[u8],
        fingerprint: String,
        page_count: usize,
        sidecar: Sidecar,
    ) -> (r: (Self, Option<LoadWarning>))
        ensures
            (r.0@, r.1) == load_outcome(pdf_path@, fingerprint@, page_count as nat, sidecar),
    {
        let mut store: AnnotationStore = AnnotationStore {
            path: sidecar_path(pdf_path),
            fingerprint,
            annotations: Vec::new(),
            next_id: 1,
            dirty_since: None,
            preserve_existing: false,
        };
        assert(store@ =~= empty_store(pdf_path@, fingerprint@, false));
        let warning: LoadWarning = match sidecar {
            Sidecar::Missing => {
                return (store, None);
            },
            Sidecar::Unreadable(error) => LoadWarning::Read(error),
            Sidecar::Malformed(error) => LoadWarning::Parse(error),
            Sidecar::Present(file) => {
                if file.schema_version != SCHEMA_VERSION {
                    LoadWarning::Schema(file.schema_version)
                } else if file.document_fingerprint != store.fingerprint {
                    LoadWarning::Fingerprint
                } else if !valid_annotations(file.annotations.as_slice(), page_count) {
                    LoadWarning::InvalidData
                } else {
                    let mut largest: u64 = 0;
                    let mut i: usize = 0;
                    let ghost views = annotation_views(file.annotations@);
                    while i < file.annotations.len()
                        invariant
                            i <= file.annotations@.len(),
                            views == annotation_views(file.annotations@),
                            largest == largest_id(views.take(i as int)),
                        decreases file.annotations@.len() - i,
                    {
                        assert(views.take(i + 1).drop_last() =~= views.take(i as int));
                        assert(views[i as int] == file.annotations@[i as int]@);
                        if file.annotations[i].id > largest {
                            largest = file.annotations[i].id;
                        }
                        i = i + 1;
                    }
                    assert(views.take(i as int) =~= views);
                    store.next_id = largest.saturating_add(1);
                    store.annotations = file.annotations;
                    assert(store@ =~= filled_store(pdf_path@, fingerprint@, views));
                    return (store, None);
                }
            },
        };
        store.preserve_existing = true;
        assert(store@ =~= empty_store(pdf_path@, fingerprint@, true));
        (store, Some(warning))
    }

    /// The annotations in the order in which they were made.
    pub fn annotations(&self) -> (r: &[Annotation])
        ensures
            annotation_views(r@) == self@.annotations,
    {
        self.annotations.as_slice()
    }

    /// The annotation with an identifier, to be changed.
    pub fn annotation_mut(&mut self, id: u64) -> (r: Option<&mut Annotation>)
        ensures
            match r {
                Some(annotation) => {
                    let k = first_with_id(old(self)@.annotations, id);
                    &&& k < old(self)@.annotations.len()
                    &&& annotation@ == old(self)@.annotations[k]
                    &&& final(self)@ == (StoreView {
                        annotations: old(self)@.annotations.update(k, final(annotation)@),
                        ..old(self)@
                    })
                },
                None => {
                    &&& first_with_id(old(self)@.annotations, id) == old(self)@.annotations.len()
                    &&& final(self)@ == old(self)@
                },
            },
    {
        let mut i: usize = 0;
        let ghost before = self@;
        while i < self.annotations.len()
            invariant
                self@ == before,
                before == old(self)@,
                i <= self.annotations@.len(),
                forall|k: int| 0 <= k < i ==> (#[trigger] before.annotations[k]).id != id,
            decreases self.annotations@.len() - i,
        {
            assert(before.annotations[i as int] == self.annotations@[i as int]@);
            if self.annotations[i].id == id {
                proof {
                    lemma_first_with_id(before.annotations, id, i as int);
                }
                return Some(&mut self.annotations[i]);
            }
            i = i + 1;
        }
        proof {
            lemma_first_with_id(before.annotations, id, i as int);
        }
        None
    }

    /// Adds a highlight without a note.
    pub fn add(
        &mut self,
        page_index: usize,
        rects: Vec<NormalizedRect>,
        selected_text: String,
        now: u64,
    ) -> (id: u64)
        ensures
            id == old(self)@.next_id,
            final(self)@ == (StoreView {
                annotations: old(self)@.annotations.push(
                    AnnotationView {
                        id,
                        page_index,
                        rects: rects@,
                        selected_text: selected_text@,
                        note: Seq::empty(),
                    },
                ),
                next_id: successor(old(self)@.next_id),
                dirty_since: Some(now),
                ..old(self)@
            }),
    {
        let id: u64 = self.next_id;
        let ghost before = self@;
        let annotation: Annotation = Annotation {
            id,
            page_index,
            rects,
            selected_text,
            note: String::new(),
        };
        let ghost added = annotation@;
        self.next_id = self.next_id.saturating_add(1);
        self.annotations.push(annotation);
        self.mark_dirty(now);
        assert(self@.annotations =~= before.annotations.push(added));
        id
    }

    /// Removes the annotation with an identifier, and says whether there was one.
    pub fn remove(&mut self, id: u64, now: u64) -> (changed: bool)
        ensures
            changed == exists|k: int|
                0 <= k < old(self)@.annotations.len() && (#[trigger] old(self)@.annotations[k]).id
                    == id,
            final(self)@ == (if changed {
                StoreView {
                    annotations: without_id(old(self)@.annotations, id),
                    dirty_since: Some(now),
                    ..old(self)@
                }
            } else {
                old(self)@
            }),
    {
        let ghost before = self@;
        let ghost keep = |annotation: AnnotationView| annotation.id != id;
        let mut kept: Vec<Annotation> = Vec::new();
        let mut changed: bool = false;
        let mut i: usize = 0;
        while i < self.annotations.len()
            invariant
                self@ == before,
                before == old(self)@,
                i <= self.annotations@.len(),
                keep == (|annotation: AnnotationView| annotation.id != id),
                annotation_views(kept@) == before.annotations.take(i as int).filter(keep),
                changed == exists|k: int|
                    0 <= k < i && (#[trigger] before.annotations[k]).id == id,
                !changed ==> annotation_views(kept@) == before.annotations.take(i as int),
            decreases self.annotations@.len() - i,
        {
            let ghost views = before.annotations;
            let ghost partial = annotation_views(kept@);
            proof {
                assert(views[i as int] == self.annotations@[i as int]@);
                assert(views.take(i + 1).drop_last() =~= views.take(i as int));
                reveal(Seq::filter);
            }
            if self.annotations[i].id != id {
                kept.push(self.annotations[i].clone());
                assert(annotation_views(kept@) =~= partial.push(views[i as int]));
                assert(views.take(i + 1) =~= views.take(i as int).push(views[i as int]));
            } else {
                changed = true;
                assert(views[i as int].id == id);
            }
            i = i + 1;
        }
        assert(before.annotations.take(i as int) =~= before.annotations);
        if changed {
            self.annotations = kept;
            self.mark_dirty(now);
        }
        changed
    }

    /// Notes that the annotations have changed.
    pub fn mark_dirty(&mut self, now: u64)
        ensures
            final(self)@ == (StoreView { dirty_since: Some(now), ..old(self)@ }),
    {
        self.dirty_since = Some(now);
    }

    /// Gives up changes that could not be written.
    pub fn give_up_changes(&mut self)
        ensures
            final(self)@ == (StoreView { dirty_since: None, ..old(self)@ }),
    {
        self.dirty_since = None;
    }

    /// Whether there are changes that were not written.
    pub fn is_dirty(&self) -> (r: bool)
        ensures
            r == self@.dirty_since is Some,
    {
        self.dirty_since.is_some()
    }

    /// Begins a save where the last change is old enough.
    pub fn save_if_due(&mut self, delay: u64, now: u64) -> (r: SaveAction)
        ensures
            match old(self)@.dirty_since {
                Some(since) => if now - since >= delay || delay == 0 {
                    (final(self)@, r@) == save_step(old(self)@, SaveEvent::Begin)
                } else {
                    final(self)@ == old(self)@ && r@ == SaveActionView::Finish
                },
                None => final(self)@ == old(self)@ && r@ == SaveActionView::Finish,
            },
    {
        match self.dirty_since {
            Some(since) => if now.saturating_sub(since) >= delay {
                self.save(SaveEvent::Begin)
            } else {
                SaveAction::Finish
            },
            None => SaveAction::Finish,
        }
    }

    /// The new file to be written.
    fn write_draft(&self) -> (r: SaveAction)
        ensures
            r@ == write_action(self@),
    {
        let file: AnnotationFile = AnnotationFile {
            schema_version: SCHEMA_VERSION,
            document_fingerprint: self.fingerprint.clone(),
            annotations: copy_annotations(self.annotations.as_slice()),
        };
        assert(file@ =~= file_of(self@));
        SaveAction::Write { path: append_suffix(self.path.as_slice(), ".tmp"), file }
    }

    /// A copy of the path of the sidecar file.
    fn own_path(&self) -> (r: Vec<u8>)
        ensures
            r@ == self@.path,
    {
        let mut path: Vec<u8> = Vec::new();
        path.extend_from_slice(self.path.as_slice());
        assert(path@ =~= self.path@);
        path
    }

    /// Says what a save does next.
    pub fn save(&mut self, event: SaveEvent) -> (r: SaveAction)
        ensures
            (final(self)@, r@) == save_step(old(self)@, event),
    {
        match event {
            SaveEvent::Begin => if self.dirty_since.is_none() {
                SaveAction::Finish
            } else if self.preserve_existing {
                SaveAction::LookForSidecar { path: self.own_path() }
            } else {
                self.write_draft()
            },
            SaveEvent::Sidecar { exists } => if exists {
                SaveAction::LookForBackup { path: append_suffix(self.path.as_slice(), ".bak") }
            } else {
                self.write_draft()
            },
            SaveEvent::Backup { exists } => if exists {
                self.preserve_existing = false;
                self.write_draft()
            } else {
                SaveAction::Copy {
                    from: self.own_path(),
                    to: append_suffix(self.path.as_slice(), ".bak"),
                }
            },
            SaveEvent::Copied => {
                self.preserve_existing = false;
                self.write_draft()
            },
            SaveEvent::Written => SaveAction::Rename {
                from: append_suffix(self.path.as_slice(), ".tmp"),
                to: self.own_path(),
            },
            SaveEvent::Renamed => {
                self.dirty_since = None;
                SaveAction::Finish
            },
        }
    }
}

/// Identifiers are positive, smaller than the next one to be given out, and distinct.
pub open spec fn ids_sound(store: StoreView) -> bool {
    &&& store.next_id > 0
    &&& forall|i: int|
        0 <= i < store.annotations.len() ==> 0 < (#[trigger] store.annotations[i]).id
            < store.next_id
    &&& ids_distinct(store.annotations)
}

/// Every identifier is at most the largest.
proof fn lemma_largest_id(annotations: Seq<AnnotationView>)
    ensures
        forall|i: int|
            0 <= i < annotations.len() ==> (#[trigger] annotations[i]).id <= largest_id(
                annotations,
            ),
    decreases annotations.len(),
{
    if annotations.len() > 0 {
        let rest = annotations.drop_last();
        lemma_largest_id(rest);
        assert forall|i: int| 0 <= i < annotations.len() implies (#[trigger] annotations[i]).id
            <= largest_id(annotations) by {
            if i < rest.len() {
                assert(rest[i] == annotations[i]);
            }
        }
    }
}

/// What is loaded has sound identifiers, as long as the largest one leaves room for another.
pub proof fn law_loaded_ids_are_sound(
    pdf_path: Seq<u8>,
    fingerprint: Seq<char>,
    page_count: nat,
    sidecar: Sidecar,
)
    requires
        load_outcome(pdf_path, fingerprint, page_count, sidecar).0.next_id < u64::MAX,
    ensures
        ids_sound(load_outcome(pdf_path, fingerprint, page_count, sidecar).0),
{
    if let Sidecar::Present(file) = sidecar {
        lemma_largest_id(file@.annotations);
    }
}

/// A new highlight gets an identifier that no other one has, and identifiers stay sound, as
/// long as they have not run out.
pub proof fn law_new_ids_are_fresh(store: StoreView, added: AnnotationView)
    requires
        ids_sound(store),
        store.next_id < u64::MAX,
        added.id == store.next_id,
    ensures
        forall|i: int|
            0 <= i < store.annotations.len() ==> (#[trigger] store.annotations[i]).id != added.id,
        ids_sound(
            StoreView {
                annotations: store.annotations.push(added),
                next_id: successor(store.next_id),
                ..store
            },
        ),
{
    let after = store.annotations.push(added);
    assert forall|i: int, j: int| 0 <= i < j < after.len() implies (#[trigger] after[i]).id != (
    #[trigger] after[j]).id by {
        assert(after[i] == store.annotations[i]);
        if j < store.annotations.len() {
            assert(after[j] == store.annotations[j]);
        }
    }
}

/// What is left after removing was there before.
proof fn lemma_kept_was_there(annotations: Seq<AnnotationView>, id: u64, i: int)
    requires
        0 <= i < without_id(annotations, id).len(),
    ensures
        annotations.contains(without_id(annotations, id)[i]),
    decreases annotations.len(),
{
    reveal(Seq::filter);
    if annotations.len() > 0 {
        let rest = annotations.drop_last();
        if i < without_id(rest, id).len() {
            lemma_kept_was_there(rest, id, i);
            let kept = without_id(rest, id)[i];
            let k = choose|k: int| 0 <= k < rest.len() && rest[k] == kept;
            assert(annotations[k] == kept);
        } else {
            assert(annotations[annotations.len() - 1] == without_id(annotations, id)[i]);
        }
    }
}

/// Removing keeps identifiers sound, and leaves none of the kind that was removed.
pub proof fn law_removed_ids_are_gone(store: StoreView, id: u64)
    requires
        ids_sound(store),
    ensures
        ids_sound(StoreView { annotations: without_id(store.annotations, id), ..store }),
        forall|i: int|
            0 <= i < without_id(store.annotations, id).len() ==> (#[trigger] without_id(
                store.annotations,
                id,
            )[i]).id != id,
    decreases store.annotations.len(),
{
    reveal(Seq::filter);
    if store.annotations.len() > 0 {
        let rest = StoreView { annotations: store.annotations.drop_last(), ..store };
        assert forall|i: int| 0 <= i < rest.annotations.len() implies 0 < (
        #[trigger] rest.annotations[i]).id < rest.next_id by {
            assert(rest.annotations[i] == store.annotations[i]);
        }
        assert forall|i: int, j: int| 0 <= i < j < rest.annotations.len() implies (
        #[trigger] rest.annotations[i]).id != (#[trigger] rest.annotations[j]).id by {
            assert(rest.annotations[i] == store.annotations[i]);
            assert(rest.annotations[j] == store.annotations[j]);
        }
        law_removed_ids_are_gone(rest, id);
        let kept = without_id(rest.annotations, id);
        let last = store.annotations.last();
        if last.id != id {
            let all = without_id(store.annotations, id);
            assert(all == kept.push(last));
            assert forall|i: int| 0 <= i < kept.len() implies (#[trigger] kept[i]).id
                != last.id by {
                lemma_kept_was_there(rest.annotations, id, i);
                let k = choose|k: int|
                    0 <= k < rest.annotations.len() && rest.annotations[k] == kept[i];
                assert(store.annotations[k] == kept[i]);
                assert(store.annotations[store.annotations.len() - 1] == last);
            }
            assert forall|i: int, j: int| 0 <= i < j < all.len() implies (#[trigger] all[i]).id
                != (#[trigger] all[j]).id by {
                assert(all[i] == kept[i]);
                if j < kept.len() {
                    assert(all[j] == kept[j]);
                }
            }
        }
    }
}

/// What a save writes is what opening the document again loads: all annotations, without a
/// warning, exactly where they can be those of the document.
pub proof fn law_saved_annotations_are_loaded(
    store: StoreView,
    pdf_path: Seq<u8>,
    page_count: nat,
    file: AnnotationFile,
)
    requires
        store.path == sidecar_of(pdf_path),
        file@ == file_of(store),
    ensures
        annotations_valid(store.annotations, page_count) ==> load_outcome(
            pdf_path,
            store.fingerprint,
            page_count,
            Sidecar::Present(file),
        ) == (
            (
                StoreView {
                    next_id: successor(largest_id(store.annotations)),
                    dirty_since: None,
                    preserve_existing: false,
                    ..store
                },
                None::<LoadWarning>,
            )
        ),
        !annotations_valid(store.annotations, page_count) ==> load_outcome(
            pdf_path,
            store.fingerprint,
            page_count,
            Sidecar::Present(file),
        ) == (empty_store(pdf_path, store.fingerprint, true), Some(LoadWarning::InvalidData)),
{
    assert(filled_store(pdf_path, store.fingerprint, store.annotations) =~= StoreView {
        next_id: successor(largest_id(store.annotations)),
        dirty_since: None,
        preserve_existing: false,
        ..store
    });
}

/// Annotations of another version of the document are not shown.
pub proof fn law_other_documents_notes_are_refused(
    pdf_path: Seq<u8>,
    fingerprint: Seq<char>,
    page_count: nat,
    file: AnnotationFile,
)
    requires
        file@.document_fingerprint != fingerprint,
    ensures
        load_outcome(pdf_path, fingerprint, page_count, Sidecar::Present(file)).0.annotations
            == Seq::<AnnotationView>::empty(),
        load_outcome(pdf_path, fingerprint, page_count, Sidecar::Present(file)).1 is Some,
{
}

/// The path that an action changes, if it changes any.
pub open spec fn changed_paths(action: SaveActionView) -> Set<Seq<u8>> {
    match action {
        SaveActionView::Copy { from: _, to } => set![to],
        SaveActionView::Write { path, file: _ } => set![path],
        SaveActionView::Rename { from, to } => set![from, to],
        _ => Set::empty(),
    }
}

/// No step of a save changes the document.
pub proof fn law_document_is_never_changed(pdf_path: Seq<u8>, store: StoreView, event: SaveEvent)
    requires
        store.path == sidecar_of(pdf_path),
    ensures
        !changed_paths(save_step(store, event).1).contains(pdf_path),
        save_step(store, event).0.path == sidecar_of(pdf_path),
{
    reveal_strlit(".spv.json");
    reveal_strlit(".bak");
    reveal_strlit(".tmp");
    crate::path::lemma_suffix_changes_path(pdf_path, ".spv.json"@);
    crate::path::lemma_suffix_changes_path(store.path, ".bak"@);
    crate::path::lemma_suffix_changes_path(store.path, ".tmp"@);
}

/// Loading never makes a store that is kept in the document itself.
pub proof fn law_sidecar_is_not_the_document(
    pdf_path: Seq<u8>,
    fingerprint: Seq<char>,
    page_count: nat,
    sidecar: Sidecar,
)
    ensures
        load_outcome(pdf_path, fingerprint, page_count, sidecar).0.path == sidecar_of(pdf_path),
        sidecar_of(pdf_path) != pdf_path,
{
    reveal_strlit(".spv.json");
    crate::path::lemma_suffix_changes_path(pdf_path, ".spv.json"@);
}

/// A sidecar file that was refused is not overwritten before there is a copy of it: as long as
/// it is to be preserved, a save writes only after it was found missing, its copy was found, or
/// the copy was made.
pub proof fn law_refused_file_is_kept(store: StoreView, event: SaveEvent)
    requires
        store.preserve_existing,
        save_step(store, event).1 is Write,
    ensures
        event == (SaveEvent::Sidecar { exists: false }) || event == (SaveEvent::Backup {
            exists: true,
        }) || event == SaveEvent::Copied,
{
}

/// Only the end of a save forgets that there are changes; every other step, and so every save
/// that fails, leaves the annotations to be saved again.
pub proof fn law_failed_save_stays_due(store: StoreView, event: SaveEvent)
    ensures
        save_step(store, event).0.annotations == store.annotations,
        save_step(store, event).0.dirty_since == (if event == SaveEvent::Renamed {
            None
        } else {
            store.dirty_since
        }),
{
}

/// The states of a store and the actions of a save, one event after the other.
pub open spec fn save_run(store: StoreView, events: Seq<SaveEvent>) -> (
    StoreView,
    Seq<SaveActionView>,
)
    decreases events.len(),
{
    if events.len() == 0 {
        (store, Seq::empty())
    } else {
        let (before, actions) = save_run(store, events.drop_last());
        let (after, action) = save_step(before, events.last());
        (after, actions.push(action))
    }
}

/// A save of changes, with nothing to preserve, writes the whole store beside the sidecar file,
/// puts it in its place and is finished.
pub proof fn law_save_replaces_the_sidecar(store: StoreView)
    requires
        store.dirty_since is Some,
        !store.preserve_existing,
    ensures
        save_run(store, seq![SaveEvent::Begin, SaveEvent::Written, SaveEvent::Renamed]) == (
            StoreView { dirty_since: None, ..store },
            seq![
                write_action(store),
                SaveActionView::Rename { from: draft_of(store), to: store.path },
                SaveActionView::Finish,
            ],
        ),
{
    let three = seq![SaveEvent::Begin, SaveEvent::Written, SaveEvent::Renamed];
    let two = seq![SaveEvent::Begin, SaveEvent::Written];
    let one = seq![SaveEvent::Begin];
    assert(three.drop_last() =~= two);
    assert(two.drop_last() =~= one);
    assert(one.drop_last() =~= Seq::<SaveEvent>::empty());
    let written = write_action(store);
    let renamed = SaveActionView::Rename { from: draft_of(store), to: store.path };
    assert(save_run(store, Seq::empty()) == (store, Seq::<SaveActionView>::empty()));
    assert(save_run(store, one) == (store, Seq::empty().push(written)));
    assert(save_run(store, two) == (store, Seq::empty().push(written).push(renamed)));
    assert(Seq::empty().push(written).push(renamed).push(SaveActionView::Finish) =~= seq![
        written,
        renamed,
        SaveActionView::Finish,
    ]);
}

/// What a save that meets no failure is told, by what is found on the disk where there is a file to
/// preserve.
pub open spec fn save_answers(store: StoreView, sidecar: bool, backup: bool) -> Seq<SaveEvent> {
    let looked = if !store.preserve_existing {
        seq![SaveEvent::Begin]
    } else if !sidecar {
        seq![SaveEvent::Begin, SaveEvent::Sidecar { exists: false }]
    } else if backup {
        seq![
            SaveEvent::Begin,
            SaveEvent::Sidecar { exists: true },
            SaveEvent::Backup { exists: true },
        ]
    } else {
        seq![
            SaveEvent::Begin,
            SaveEvent::Sidecar { exists: true },
            SaveEvent::Backup { exists: false },
            SaveEvent::Copied,
        ]
    };
    looked.push(SaveEvent::Written).push(SaveEvent::Renamed)
}

/// A run with one more event goes on where the run without it ended.
proof fn lemma_save_goes_on(store: StoreView, events: Seq<SaveEvent>, event: SaveEvent)
    ensures
        ({
            let (before, actions) = save_run(store, events);
            let (after, action) = save_step(before, event);
            save_run(store, events.push(event)) == (after, actions.push(action))
        }),
{
    assert(events.push(event).drop_last() =~= events);
}

/// Whatever is found on the disk, a save of changes that meets no failure ends by writing the whole
/// store beside the sidecar file and putting it in its place. Nothing is unsaved then, and the
/// annotations are what they were.
pub proof fn law_every_save_replaces_the_sidecar(store: StoreView, sidecar: bool, backup: bool)
    requires
        store.dirty_since is Some,
    ensures
        ({
            let events = save_answers(store, sidecar, backup);
            let (after, actions) = save_run(store, events);
            let last = events.len() - 1;
            &&& after.dirty_since is None
            &&& after.annotations == store.annotations
            &&& actions.len() == events.len()
            &&& actions[last - 2] == write_action(store)
            &&& actions[last - 1] == (SaveActionView::Rename {
                from: draft_of(store),
                to: store.path,
            })
            &&& actions[last] == SaveActionView::Finish
        }),
{
    let none = Seq::<SaveEvent>::empty();
    let begun = none.push(SaveEvent::Begin);
    let found = begun.push(SaveEvent::Sidecar { exists: true });
    let missing = begun.push(SaveEvent::Sidecar { exists: false });
    let kept = found.push(SaveEvent::Backup { exists: true });
    let unkept = found.push(SaveEvent::Backup { exists: false });
    let copied = unkept.push(SaveEvent::Copied);
    lemma_save_goes_on(store, none, SaveEvent::Begin);
    lemma_save_goes_on(store, begun, SaveEvent::Sidecar { exists: true });
    lemma_save_goes_on(store, begun, SaveEvent::Sidecar { exists: false });
    lemma_save_goes_on(store, found, SaveEvent::Backup { exists: true });
    lemma_save_goes_on(store, found, SaveEvent::Backup { exists: false });
    lemma_save_goes_on(store, unkept, SaveEvent::Copied);
    let looked = if !store.preserve_existing {
        begun
    } else if !sidecar {
        missing
    } else if backup {
        kept
    } else {
        copied
    };
    lemma_save_goes_on(store, looked, SaveEvent::Written);
    lemma_save_goes_on(store, looked.push(SaveEvent::Written), SaveEvent::Renamed);
    assert(save_answers(store, sidecar, backup) =~= looked.push(SaveEvent::Written).push(
        SaveEvent::Renamed,
    ));
}

/// It does not matter from which corner to which a rectangle is dragged: its size is the same,
/// and so is its place as a number.
pub proof fn law_dragging_either_way(a: [Real32; 2], b: [Real32; 2])
    requires
        a[0].is_finite() && a[1].is_finite(),
        b[0].is_finite() && b[1].is_finite(),
    ensures
        NormalizedRect::spanned(a, b).width == NormalizedRect::spanned(b, a).width,
        NormalizedRect::spanned(a, b).height == NormalizedRect::spanned(b, a).height,
        NormalizedRect::spanned(a, b).x.equals(NormalizedRect::spanned(b, a).x),
        NormalizedRect::spanned(a, b).y.equals(NormalizedRect::spanned(b, a).y),
{
    lemma_distance_is_symmetric(a[0], b[0]);
    lemma_distance_is_symmetric(a[1], b[1]);
    reveal(Real32::spec_is_finite);
    reveal(Real32::spec_less);
    reveal(Real32::spec_up_to);
}

} // verus!
