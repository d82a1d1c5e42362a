//! The panel with the notes on the page that is shown.

use crate::annotations::annotation_views;
use crate::annotations::first_with_id;
use crate::annotations::lemma_first_with_id;
use crate::annotations::without_id;
use crate::annotations::Annotation;
use crate::annotations::AnnotationView;
use crate::annotations::StoreView;
use crate::text::compact_text;
use crate::text::compacted;
use crate::text::decimal;
use crate::text::is_blank;
use crate::text::trimmed;
use crate::viewer::drawing::annotations_on;
use crate::viewer::navigation::page_label;
use crate::viewer::DocumentView;
use crate::viewer::PdfViewerApp;
use crate::viewer::ViewerView;
use vstd::prelude::*;

verus! {

/// How many characters of a highlighted text are shown.
pub const SUMMARY_CHARS: usize = 70;

/// A highlight in the list of the panel.
#[derive(Debug)]
pub struct NoteSummary {
    pub id: u64,
    pub label: String,
    pub selected: bool,
}

/// What a highlight in the list says.
pub struct NoteSummaryView {
    pub id: u64,
    pub label: Seq<char>,
    pub selected: bool,
}

impl View for NoteSummary {
    type V = NoteSummaryView;

    open spec fn view(&self) -> NoteSummaryView {
        NoteSummaryView { id: self.id, label: self.label@, selected: self.selected }
    }
}

/// How a highlight is listed: by the beginning of its text, with a mark where there is a note.
pub open spec fn summary_of(
    annotation: AnnotationView,
    selected: Option<u64>,
) -> NoteSummaryView {
    let text = compacted(annotation.selected_text, SUMMARY_CHARS as nat);
    NoteSummaryView {
        id: annotation.id,
        label: if trimmed(annotation.note).len() > 0 {
            "📝 "@ + text
        } else {
            text
        },
        selected: selected == Some(annotation.id),
    }
}

/// How highlights are listed.
pub open spec fn summaries_of(
    annotations: Seq<AnnotationView>,
    selected: Option<u64>,
) -> Seq<NoteSummaryView> {
    annotations.map_values(|annotation: AnnotationView| summary_of(annotation, selected))
}

/// What the highlights of a list say.
pub open spec fn summary_views(summaries: Seq<NoteSummary>) -> Seq<NoteSummaryView> {
    summaries.map_values(|summary: NoteSummary| summary@)
}

impl<T> ViewerView<T> {
    /// The annotations of the open document.
    pub open spec fn notes(self) -> Seq<AnnotationView> {
        match self.document {
            Some(document) => document.annotations.annotations,
            None => Seq::empty(),
        }
    }

    /// The annotation that is selected, if it is on the page that is shown.
    pub open spec fn selected_here(self) -> Option<u64> {
        match self.selected_annotation {
            Some(id) => {
                let k = first_with_id(self.notes(), id);
                if k < self.notes().len() && self.notes()[k].page_index == self.current_page {
                    Some(id)
                } else {
                    None
                }
            },
            None => None,
        }
    }

    /// The viewer with other annotations.
    pub open spec fn with_store(self, store: StoreView) -> ViewerView<T> {
        ViewerView {
            document: Some(DocumentView { annotations: store, ..self.document.unwrap() }),
            ..self
        }
    }

    /// The viewer after the note of an annotation was changed.
    pub open spec fn noted(self, id: u64, note: Seq<char>, now: u64) -> ViewerView<T> {
        let k = first_with_id(self.notes(), id);
        if k < self.notes().len() {
            let store = self.document.unwrap().annotations;
            self.with_store(
                StoreView {
                    annotations: store.annotations.update(
                        k,
                        AnnotationView { note, ..store.annotations[k] },
                    ),
                    dirty_since: Some(now),
                    ..store
                },
            )
        } else {
            self
        }
    }

    /// The viewer after a highlight was deleted.
    pub open spec fn unhighlighted(self, id: u64, now: u64) -> ViewerView<T> {
        let store = self.document.unwrap().annotations;
        let unselected = ViewerView { selected_annotation: None, ..self };
        if exists|k: int|
            0 <= k < store.annotations.len() && (#[trigger] store.annotations[k]).id == id {
            unselected.with_store(
                StoreView {
                    annotations: without_id(store.annotations, id),
                    dirty_since: Some(now),
                    ..store
                },
            )
        } else {
            unselected
        }
    }
}

impl<T> PdfViewerApp<T> {
    /// Whether the panel is there.
    pub fn notes_shown(&self) -> (r: bool)
        ensures
            r == (self@.show_notes && self@.document is Some),
    {
        self.show_notes && self.document.is_some()
    }

    /// The heading of the panel.
    pub fn notes_heading(&self) -> (r: String)
        requires
            self.wf(),
            self@.document is Some,
        ensures
            r@ == "Notes — page "@ + page_label(self@.current_page),
    {
        proof {
            self.lemma_pages_fit();
        }
        "Notes — page ".to_owned().concat(decimal(self.current_page as u64 + 1).as_str())
    }

    /// The highlights on the page that is shown.
    pub fn note_summaries(&self) -> (r: Vec<NoteSummary>)
        ensures
            summary_views(r@) == summaries_of(
                annotations_on(self@.notes(), self@.current_page),
                self@.selected_annotation,
            ),
    {
        let mut summaries: Vec<NoteSummary> = Vec::new();
        let ghost selected = self.selected_annotation;
        let ghost page = self.current_page;
        let ghost keep = |annotation: AnnotationView| annotation.page_index == page;
        match &self.document {
            Some(document) => {
                let annotations: &[Annotation] = document.annotations.annotations();
                let ghost views = annotation_views(annotations@);
                let mut i: usize = 0;
                assert(views.take(0).filter(keep) =~= Seq::empty()) by {
                    reveal(Seq::filter);
                }
                while i < annotations.len()
                    invariant
                        i <= annotations@.len(),
                        views == annotation_views(annotations@),
                        page == self.current_page,
                        selected == self.selected_annotation,
                        keep == (|annotation: AnnotationView| annotation.page_index == page),
                        summary_views(summaries@) == summaries_of(
                            views.take(i as int).filter(keep),
                            selected,
                        ),
                    decreases annotations@.len() - i,
                {
                    let ghost before = summary_views(summaries@);
                    proof {
                        reveal(Seq::filter);
                        assert(views[i as int] == annotations@[i as int]@);
                        assert(views.take(i + 1).drop_last() =~= views.take(i as int));
                    }
                    let annotation: &Annotation = &annotations[i];
                    if annotation.page_index == self.current_page {
                        let text: String = compact_text(
                            annotation.selected_text.as_str(),
                            SUMMARY_CHARS,
                        );
                        let label: String = if is_blank(annotation.note.as_str()) {
                            text
                        } else {
                            "📝 ".to_owned().concat(text.as_str())
                        };
                        let is_selected: bool = self.selected_annotation == Some(annotation.id);
                        summaries.push(
                            NoteSummary { id: annotation.id, label, selected: is_selected },
                        );
                        assert(summary_views(summaries@) =~= before.push(
                            summary_of(views[i as int], selected),
                        ));
                        assert(summaries_of(views.take(i + 1).filter(keep), selected)
                            =~= summaries_of(views.take(i as int).filter(keep), selected).push(
                            summary_of(views[i as int], selected),
                        ));
                    }
                    i = i + 1;
                }
                assert(views.take(i as int) =~= views);
            },
            None => {
                proof {
                    reveal(Seq::filter);
                    assert(summaries_of(annotations_on(self@.notes(), page), selected)
                        =~= Seq::empty());
                }
            },
        }
        summaries
    }

    /// Selects an annotation.
    pub fn select_annotation(&mut self, id: u64)
        requires
            old(self).wf(),
        ensures
            final(self).wf(),
            final(self)@ == (ViewerView { selected_annotation: Some(id), ..old(self)@ }),
    {
        self.selected_annotation = Some(id);
    }

    /// The annotation whose note is shown, if one is; one that is not on the page that is shown
    /// is no longer selected.
    pub fn open_note(&mut self) -> (r: Option<u64>)
        requires
            old(self).wf(),
        ensures
            final(self).wf(),
            r == old(self)@.selected_here(),
            final(self)@ == (ViewerView {
                selected_annotation: old(self)@.selected_here(),
                ..old(self)@
            }),
    {
        let id: u64 = match self.selected_annotation {
            Some(id) => id,
            None => {
                return None;
            },
        };
        let here: bool = match &self.document {
            Some(document) => is_on_page(
                document.annotations.annotations(),
                id,
                self.current_page,
            ),
            None => false,
        };
        if here {
            Some(id)
        } else {
            self.selected_annotation = None;
            None
        }
    }

    /// Changes the note of an annotation.
    pub fn edit_note(&mut self, id: u64, note: String, now: u64)
        requires
            old(self).wf(),
        ensures
            final(self).wf(),
            final(self)@ == old(self)@.noted(id, note@, now),
    {
        if let Some(document) = &mut self.document {
            let mut found: bool = false;
            if let Some(annotation) = document.annotations.annotation_mut(id) {
                annotation.note = note;
                found = true;
            }
            if found {
                document.annotations.mark_dirty(now);
            }
        }
    }

    /// Deletes a highlight with its note.
    pub fn delete_highlight(&mut self, id: u64, now: u64)
        requires
            old(self).wf(),
            old(self)@.document is Some,
        ensures
            final(self).wf(),
            final(self)@ == old(self)@.unhighlighted(id, now),
    {
        if let Some(document) = &mut self.document {
            document.annotations.remove(id, now);
        }
        self.selected_annotation = None;
    }
}

/// Whether the annotation with an identifier is on a page.
fn is_on_page(annotations: &[Annotation], id: u64, page_index: usize) -> (r: bool)
    ensures
        ({
            let views = annotation_views(annotations@);
            let k = first_with_id(views, id);
            r == (k < views.len() && views[k].page_index == page_index)
        }),
{
    let ghost views = annotation_views(annotations@);
    let mut i: usize = 0;
    while i < annotations.len()
        invariant
            i <= annotations@.len(),
            views == annotation_views(annotations@),
            forall|k: int| 0 <= k < i ==> (#[trigger] views[k]).id != id,
        decreases annotations@.len() - i,
    {
        assert(views[i as int] == annotations@[i as int]@);
        if annotations[i].id == id {
            proof {
                lemma_first_with_id(views, id, i as int);
            }
            return annotations[i].page_index == page_index;
        }
        i = i + 1;
    }
    proof {
        lemma_first_with_id(views, id, i as int);
    }
    false
}

} // verus!
