//! Saving the annotations, and when the screen is drawn again.

use crate::annotations::save_step;
use crate::annotations::SaveAction;
use crate::annotations::SaveActionView;
use crate::annotations::SaveEvent;
use crate::annotations::StoreView;
use crate::viewer::hover::elapsed;
use crate::viewer::PdfViewerApp;
use crate::viewer::ViewerView;
use crate::viewer::SAVE_DELAY;
use crate::viewer::STATUS_LIFETIME;
use vstd::prelude::*;

verus! {

/// When the screen is drawn again.
#[derive(Clone, Copy, Debug, PartialEq, Eq, Structural)]
pub struct Repaint {
    /// Soon: something is waited for.
    pub soon: bool,
    /// When the message to the user has been shown for long enough.
    pub after: Option<u64>,
}

impl<T> ViewerView<T> {
    /// Whether the last change of the annotations is old enough for them to be saved.
    pub open spec fn save_due(self, now: u64) -> bool {
        self.document matches Some(document) && document.annotations.dirty_since matches Some(since)
            && now - since >= SAVE_DELAY
    }

    /// How a save of the annotations goes on.
    pub open spec fn saving(self, event: SaveEvent) -> (ViewerView<T>, SaveActionView) {
        match self.document {
            Some(document) => {
                let (store, action) = save_step(document.annotations, event);
                (self.with_store(store), action)
            },
            None => (self, SaveActionView::Finish),
        }
    }

    /// Whether there are changes that were not saved.
    pub open spec fn unsaved(self) -> bool {
        self.document matches Some(document) && document.annotations.dirty_since is Some
    }

    /// The viewer after unsaved changes were given up.
    pub open spec fn given_up(self) -> ViewerView<T> {
        match self.document {
            Some(document) => self.with_store(
                StoreView { dirty_since: None, ..document.annotations },
            ),
            None => self,
        }
    }

    /// Whether something is waited for.
    pub open spec fn waiting(self) -> bool {
        ||| self.loading is Some
        ||| self.pending_renders.len() > 0
        ||| self.pending_previews.len() > 0
        ||| self.selection_waiting is Some
    }

    /// Whether the message to the user has been shown for long enough.
    pub open spec fn status_old(self, now: u64) -> bool {
        self.status matches Some(status) && elapsed(status.created, now) > STATUS_LIFETIME
    }
}

impl<T> PdfViewerApp<T> {
    /// Begins to save the annotations where the last change is old enough; says what to do
    /// first, and whether there are changes that were not saved.
    pub fn save_annotations(&mut self, now: u64) -> (r: (SaveAction, bool))
        requires
            old(self).wf(),
        ensures
            final(self).wf(),
            if old(self)@.save_due(now) {
                (final(self)@, r.0@) == old(self)@.saving(SaveEvent::Begin)
            } else {
                final(self)@ == old(self)@ && r.0@ == SaveActionView::Finish
            },
            r.1 == old(self)@.unsaved(),
    {
        if let Some(document) = &mut self.document {
            let dirty: bool = document.annotations.is_dirty();
            let action: SaveAction = document.annotations.save_if_due(SAVE_DELAY, now);
            (action, dirty)
        } else {
            (SaveAction::Finish, false)
        }
    }

    /// Goes on with a save of the annotations.
    pub fn continue_save(&mut self, event: SaveEvent) -> (r: SaveAction)
        requires
            old(self).wf(),
        ensures
            final(self).wf(),
            (final(self)@, r@) == old(self)@.saving(event),
    {
        if let Some(document) = &mut self.document {
            document.annotations.save(event)
        } else {
            SaveAction::Finish
        }
    }

    /// Whether there are changes that were not saved.
    pub fn has_unsaved_changes(&self) -> (r: bool)
        ensures
            r == self@.unsaved(),
    {
        match &self.document {
            Some(document) => document.annotations.is_dirty(),
            None => false,
        }
    }

    /// Gives up changes that could not be saved, so that another document can be shown.
    pub fn give_up_changes(&mut self)
        requires
            old(self).wf(),
        ensures
            final(self).wf(),
            final(self)@ == old(self)@.given_up(),
    {
        if let Some(document) = &mut self.document {
            document.annotations.give_up_changes();
        }
    }

    /// Tells the user that the annotations were not saved.
    pub fn save_failed(&mut self, error: &str, now: u64)
        requires
            old(self).wf(),
        ensures
            final(self).wf(),
            final(self)@ == old(self)@.told("Could not save annotations: "@ + error@, true, now),
    {
        self.set_status("Could not save annotations: ".to_owned().concat(error), true, now);
    }

    /// Ends a frame: an old message is taken away. Says when the screen is drawn again.
    pub fn end_frame(&mut self, now: u64) -> (r: Repaint)
        requires
            old(self).wf(),
        ensures
            final(self).wf(),
            final(self)@ == (if old(self)@.status_old(now) {
                ViewerView { status: None, ..old(self)@ }
            } else {
                old(self)@
            }),
            r.soon == old(self)@.waiting(),
            r.after == (match old(self)@.status {
                Some(status) => if old(self)@.status_old(now) {
                    None
                } else {
                    Some((STATUS_LIFETIME - elapsed(status.created, now)) as u64)
                },
                None => None,
            }),
    {
        proof {
            self.pending_renders@.unique_seq_to_set();
            self.pending_previews@.unique_seq_to_set();
        }
        let soon: bool = self.loading.is_some() || self.pending_renders.len() > 0
            || self.pending_previews.len() > 0 || self.selection_waiting.is_some();
        let shown: Option<u64> = match &self.status {
            Some(status) => Some(now.saturating_sub(status.created)),
            None => None,
        };
        match shown {
            Some(time) => if time > STATUS_LIFETIME {
                self.status = None;
                Repaint { soon, after: None }
            } else {
                Repaint { soon, after: Some(STATUS_LIFETIME - time) }
            },
            None => Repaint { soon, after: None },
        }
    }
}

} // verus!
