//! What the review window is at, and what happens to it. Only a person's tick and, where
//! repositories are at risk, a second consent lead to a run; whatever changes the selection
//! takes the tick back.
use crate::deletion::LockDecision;
use crate::review_tree::Group;
use vstd::prelude::*;

verus! {

/// The question or message that stands before the window.
#[derive(Clone, Copy, Debug, PartialEq, Eq, Structural)]
pub enum Modal {
    Nothing,
    Error,
    Promote,
    Git,
    Lock,
}

/// What the window is at.
#[derive(Clone, Copy, Debug, PartialEq, Eq, Structural)]
pub struct Window {
    /// Something is being prepared, marked or deleted.
    pub busy: bool,
    /// A run is going on.
    pub deleting: bool,
    /// A run has ended.
    pub finished: bool,
    /// Only an example is shown.
    pub preview: bool,
    /// A review has been prepared.
    pub prepared: bool,
    /// The selection could be deleted.
    pub can_delete: bool,
    /// A person has ticked that the selection was reviewed.
    pub reviewed: bool,
    /// The work was asked to stop.
    pub cancelled: bool,
    pub modal: Modal,
    /// The group whose directory is to be marked as a whole.
    pub promotion: Option<i32>,
    /// A run waits for a decision on an occupied file.
    pub waiting: bool,
    /// The processes that hold the file may be closed.
    pub can_close_owners: bool,
    /// They are to be closed by force.
    pub force_close: bool,
}

/// What happens to the window.
#[derive(Clone, Copy, Debug, PartialEq, Eq, Structural)]
pub enum WindowEvent {
    /// The review is to be prepared anew: on request, or because the marks have changed.
    Refresh,
    /// A review is ready. `built`: its tree could be made; `deletable`: nothing is wrong
    /// with it; `chosen`: something is selected; `problems`: there is something to tell.
    Ready { built: bool, deletable: bool, chosen: bool, problems: bool },
    /// The work could not go on.
    Fatal,
    /// Other entries were ticked. `known`: the row stands for something; `deletable` and
    /// `chosen` as above, of the new selection.
    Selected { known: bool, deletable: bool, chosen: bool },
    /// The person says that the selection was reviewed, or takes that back.
    Ticked(bool),
    /// The marks of the selected row could not be taken back.
    UnmarkFailed,
    /// The directory of a group is to be marked as a whole. `group`: the row stands for a
    /// group that is no drive.
    PromotionWished { key: i32, group: bool },
    PromotionConfirmed { group: bool },
    /// The marks were changed, or could not be.
    PromotionEnded { done: bool },
    /// The selection is to be deleted. `risk`: a repository needs to be confirmed;
    /// `approved`: the selection and the consent make an approval.
    DeleteWished { risk: bool, approved: bool },
    GitConfirmed { approved: bool },
    /// A run met an occupied file.
    Locked { closable: bool },
    /// The button that was pressed on it.
    LockChosen(i32),
    /// A message or question was closed without an answer.
    Dismissed,
    /// The work is to stop, or the window to close.
    Stop,
    /// A run has ended. `errors`: some entries are left.
    Finished { errors: bool },
}

/// What is to be done about it.
#[derive(Clone, Copy, Debug, PartialEq, Eq, Structural)]
pub enum WindowAction {
    Nothing,
    /// Prepare the review.
    Prepare,
    /// Mark the directory of this group in place of the targets below it.
    Promote(i32),
    /// Delete the selection, with or without the consent to touch repositories at risk.
    Run { git_acknowledged: bool },
    /// Hand this decision to the run.
    Answer(LockDecision),
    /// Close the window.
    Hide,
}

/// The decision on an occupied file that a button stands for.
pub open spec fn button(choice: i32) -> LockDecision {
    if choice == 1 {
        LockDecision::Retry
    } else if choice == 2 {
        LockDecision::CloseGracefully
    } else if choice == 3 {
        LockDecision::ForceClose
    } else {
        LockDecision::Skip
    }
}

pub fn lock_choice(choice: i32) -> (r: LockDecision)
    ensures
        r == button(choice),
{
    if choice == 1 {
        LockDecision::Retry
    } else if choice == 2 {
        LockDecision::CloseGracefully
    } else if choice == 3 {
        LockDecision::ForceClose
    } else {
        LockDecision::Skip
    }
}

/// A run may begin: nothing else runs, it is no preview, the selection was reviewed, and
/// there is one.
pub open spec fn startable(w: Window) -> bool {
    !w.busy && !w.preview && w.reviewed && w.prepared
}

/// Other entries may be ticked.
pub open spec fn selectable(w: Window) -> bool {
    !w.busy && !w.finished && w.modal == Modal::Nothing
}

/// The question whether to mark a whole directory is open and may be answered.
pub open spec fn promotable(w: Window) -> bool {
    w.modal == Modal::Promote && !w.busy && !w.preview
}

pub open spec fn refreshed(w: Window) -> Window {
    Window {
        busy: true,
        deleting: false,
        finished: false,
        prepared: false,
        can_delete: false,
        reviewed: false,
        cancelled: false,
        modal: Modal::Nothing,
        promotion: None,
        ..w
    }
}

pub open spec fn begun(w: Window, approved: bool) -> Window {
    if !startable(w) {
        w
    } else if !approved {
        Window { modal: Modal::Error, ..w }
    } else {
        Window {
            busy: true,
            deleting: true,
            can_delete: false,
            cancelled: false,
            modal: Modal::Nothing,
            ..w
        }
    }
}

/// What the window is at after an event.
pub open spec fn next(w: Window, e: WindowEvent) -> Window {
    match e {
        WindowEvent::Refresh => refreshed(w),
        WindowEvent::Ready { built, deletable, chosen, problems } => if !built {
            Window { busy: false, can_delete: false, modal: Modal::Error, ..w }
        } else {
            Window {
                busy: false,
                deleting: false,
                prepared: true,
                can_delete: deletable && chosen,
                reviewed: false,
                modal: if problems {
                    Modal::Error
                } else {
                    w.modal
                },
                ..w
            }
        },
        WindowEvent::Fatal => Window {
            busy: false,
            deleting: false,
            can_delete: false,
            modal: Modal::Error,
            ..w
        },
        WindowEvent::Selected { known, deletable, chosen } => if selectable(w) && w.prepared
            && known {
            Window { can_delete: deletable && chosen, reviewed: false, ..w }
        } else {
            w
        },
        WindowEvent::Ticked(on) => Window { reviewed: on, ..w },
        WindowEvent::UnmarkFailed => Window { modal: Modal::Error, ..w },
        WindowEvent::PromotionWished { key, group } => if w.busy || w.finished || w.preview
            || !group {
            w
        } else {
            Window { modal: Modal::Promote, promotion: Some(key), ..w }
        },
        WindowEvent::PromotionConfirmed { group } => if !promotable(w) {
            w
        } else if w.promotion is None || !w.prepared || !group {
            Window { promotion: None, ..w }
        } else {
            Window {
                busy: true,
                can_delete: false,
                reviewed: false,
                cancelled: false,
                modal: Modal::Nothing,
                promotion: None,
                ..w
            }
        },
        WindowEvent::PromotionEnded { done } => if done {
            refreshed(w)
        } else {
            Window { busy: false, can_delete: false, modal: Modal::Error, ..w }
        },
        WindowEvent::DeleteWished { risk, approved } => if w.busy || !w.reviewed || !w.prepared {
            w
        } else if risk {
            Window { modal: Modal::Git, ..w }
        } else {
            begun(w, approved)
        },
        WindowEvent::GitConfirmed { approved } => if w.modal == Modal::Git {
            begun(w, approved)
        } else {
            w
        },
        WindowEvent::Locked { closable } => Window {
            waiting: true,
            can_close_owners: closable,
            force_close: false,
            modal: Modal::Lock,
            ..w
        },
        WindowEvent::LockChosen(choice) => Window {
            waiting: false,
            force_close: false,
            modal: Modal::Nothing,
            ..w
        },
        WindowEvent::Dismissed => if w.modal == Modal::Lock {
            w
        } else {
            Window { modal: Modal::Nothing, ..w }
        },
        WindowEvent::Stop => if w.busy {
            Window { cancelled: true, waiting: false, modal: Modal::Nothing, ..w }
        } else {
            w
        },
        WindowEvent::Finished { errors } => Window {
            busy: false,
            deleting: false,
            finished: true,
            can_delete: false,
            reviewed: false,
            modal: if errors {
                Modal::Error
            } else {
                Modal::Nothing
            },
            ..w
        },
    }
}

/// What is to be done about an event.
pub open spec fn reaction(w: Window, e: WindowEvent) -> WindowAction {
    match e {
        WindowEvent::Refresh => WindowAction::Prepare,
        WindowEvent::PromotionEnded { done } => if done {
            WindowAction::Prepare
        } else {
            WindowAction::Nothing
        },
        WindowEvent::PromotionConfirmed { group } => match w.promotion {
            Some(key) => if promotable(w) && w.prepared && group {
                WindowAction::Promote(key)
            } else {
                WindowAction::Nothing
            },
            None => WindowAction::Nothing,
        },
        WindowEvent::DeleteWished { risk, approved } => if startable(w) && !risk && approved {
            WindowAction::Run { git_acknowledged: false }
        } else {
            WindowAction::Nothing
        },
        WindowEvent::GitConfirmed { approved } => if startable(w) && w.modal == Modal::Git
            && approved {
            WindowAction::Run { git_acknowledged: true }
        } else {
            WindowAction::Nothing
        },
        WindowEvent::LockChosen(choice) => if w.waiting {
            WindowAction::Answer(button(choice))
        } else {
            WindowAction::Nothing
        },
        WindowEvent::Stop => if !w.busy {
            WindowAction::Hide
        } else if w.waiting {
            WindowAction::Answer(LockDecision::Skip)
        } else {
            WindowAction::Nothing
        },
        _ => WindowAction::Nothing,
    }
}

impl Window {
    /// The window as it opens, before its first refresh.
    pub fn new() -> (r: Window)
        ensures
            r == (Window {
                busy: false,
                deleting: false,
                finished: false,
                preview: false,
                prepared: false,
                can_delete: false,
                reviewed: false,
                cancelled: false,
                modal: Modal::Nothing,
                promotion: None,
                waiting: false,
                can_close_owners: false,
                force_close: false,
            }),
    {
        Window {
            busy: false,
            deleting: false,
            finished: false,
            preview: false,
            prepared: false,
            can_delete: false,
            reviewed: false,
            cancelled: false,
            modal: Modal::Nothing,
            promotion: None,
            waiting: false,
            can_close_owners: false,
            force_close: false,
        }
    }

    /// Whether the selection may be changed.
    pub fn may_select(&self) -> (r: bool)
        ensures
            r == selectable(*self),
    {
        !self.busy && !self.finished && self.modal == Modal::Nothing
    }

    /// Whether a whole directory may be marked in place of the targets below it.
    pub fn may_promote(&self, group: Option<&Group>) -> (r: bool)
        ensures
            r == (!self.busy && !self.finished && !self.preview && group is Some
                && !group->0.drive),
    {
        match group {
            Some(g) => !self.busy && !self.finished && !self.preview && !g.drive,
            None => false,
        }
    }

    /// Whether deleting may begin.
    pub fn may_begin(&self) -> (r: bool)
        ensures
            r == startable(*self),
    {
        !self.busy && !self.preview && self.reviewed && self.prepared
    }

    /// Whether closing the window hides it; otherwise the work is stopped first.
    pub fn may_close(&self) -> (r: bool)
        ensures
            r == !self.busy,
    {
        !self.busy
    }

    fn refreshed(self) -> (r: Window)
        ensures
            r == refreshed(self),
    {
        Window {
            busy: true,
            deleting: false,
            finished: false,
            prepared: false,
            can_delete: false,
            reviewed: false,
            cancelled: false,
            modal: Modal::Nothing,
            promotion: None,
            ..self
        }
    }

    fn begun(self, approved: bool) -> (r: Window)
        ensures
            r == begun(self, approved),
    {
        if !self.may_begin() {
            self
        } else if !approved {
            Window { modal: Modal::Error, ..self }
        } else {
            Window {
                busy: true,
                deleting: true,
                can_delete: false,
                cancelled: false,
                modal: Modal::Nothing,
                ..self
            }
        }
    }

    /// The question whether to mark a whole directory is confirmed.
    fn promoted(self, group: bool) -> (r: Window)
        ensures
            r == next(self, WindowEvent::PromotionConfirmed { group }),
    {
        if self.modal != Modal::Promote || self.busy || self.preview {
            self
        } else if self.promotion.is_none() || !self.prepared || !group {
            Window { promotion: None, ..self }
        } else {
            Window {
                busy: true,
                can_delete: false,
                reviewed: false,
                cancelled: false,
                modal: Modal::Nothing,
                promotion: None,
                ..self
            }
        }
    }

    /// What the window is at after an event.
    pub fn after(self, event: WindowEvent) -> (r: Window)
        ensures
            r == next(self, event),
    {
        match event {
            WindowEvent::Refresh => self.refreshed(),
            WindowEvent::Ready { built, deletable, chosen, problems } => if !built {
                Window { busy: false, can_delete: false, modal: Modal::Error, ..self }
            } else {
                Window {
                    busy: false,
                    deleting: false,
                    prepared: true,
                    can_delete: deletable && chosen,
                    reviewed: false,
                    modal: if problems {
                        Modal::Error
                    } else {
                        self.modal
                    },
                    ..self
                }
            },
            WindowEvent::Fatal => Window {
                busy: false,
                deleting: false,
                can_delete: false,
                modal: Modal::Error,
                ..self
            },
            WindowEvent::Selected { known, deletable, chosen } => if self.may_select()
                && self.prepared && known {
                Window { can_delete: deletable && chosen, reviewed: false, ..self }
            } else {
                self
            },
            WindowEvent::Ticked(on) => Window { reviewed: on, ..self },
            WindowEvent::UnmarkFailed => Window { modal: Modal::Error, ..self },
            WindowEvent::PromotionWished { key, group } => if self.busy || self.finished
                || self.preview || !group {
                self
            } else {
                Window { modal: Modal::Promote, promotion: Some(key), ..self }
            },
            WindowEvent::PromotionConfirmed { group } => self.promoted(group),
            WindowEvent::PromotionEnded { done } => if done {
                self.refreshed()
            } else {
                Window { busy: false, can_delete: false, modal: Modal::Error, ..self }
            },
            WindowEvent::DeleteWished { risk, approved } => if self.busy || !self.reviewed
                || !self.prepared {
                self
            } else if risk {
                Window { modal: Modal::Git, ..self }
            } else {
                self.begun(approved)
            },
            WindowEvent::GitConfirmed { approved } => if self.modal == Modal::Git {
                self.begun(approved)
            } else {
                self
            },
            WindowEvent::Locked { closable } => Window {
                waiting: true,
                can_close_owners: closable,
                force_close: false,
                modal: Modal::Lock,
                ..self
            },
            WindowEvent::LockChosen(_) => Window {
                waiting: false,
                force_close: false,
                modal: Modal::Nothing,
                ..self
            },
            WindowEvent::Dismissed => if self.modal == Modal::Lock {
                self
            } else {
                Window { modal: Modal::Nothing, ..self }
            },
            WindowEvent::Stop => if self.busy {
                Window { cancelled: true, waiting: false, modal: Modal::Nothing, ..self }
            } else {
                self
            },
            WindowEvent::Finished { errors } => Window {
                busy: false,
                deleting: false,
                finished: true,
                can_delete: false,
                reviewed: false,
                modal: if errors {
                    Modal::Error
                } else {
                    Modal::Nothing
                },
                ..self
            },
        }
    }

    /// What is to be done about an event.
    pub fn action(&self, event: WindowEvent) -> (r: WindowAction)
        ensures
            r == reaction(*self, event),
    {
        match event {
            WindowEvent::Refresh => WindowAction::Prepare,
            WindowEvent::PromotionEnded { done } => if done {
                WindowAction::Prepare
            } else {
                WindowAction::Nothing
            },
            WindowEvent::PromotionConfirmed { group } => match self.promotion {
                Some(key) => if self.modal == Modal::Promote && !self.busy && !self.preview
                    && self.prepared && group {
                    WindowAction::Promote(key)
                } else {
                    WindowAction::Nothing
                },
                None => WindowAction::Nothing,
            },
            WindowEvent::DeleteWished { risk, approved } => if self.may_begin() && !risk
                && approved {
                WindowAction::Run { git_acknowledged: false }
            } else {
                WindowAction::Nothing
            },
            WindowEvent::GitConfirmed { approved } => if self.may_begin() && self.modal
                == Modal::Git && approved {
                WindowAction::Run { git_acknowledged: true }
            } else {
                WindowAction::Nothing
            },
            WindowEvent::LockChosen(choice) => if self.waiting {
                WindowAction::Answer(lock_choice(choice))
            } else {
                WindowAction::Nothing
            },
            WindowEvent::Stop => if !self.busy {
                WindowAction::Hide
            } else if self.waiting {
                WindowAction::Answer(LockDecision::Skip)
            } else {
                WindowAction::Nothing
            },
            _ => WindowAction::Nothing,
        }
    }
}

/// A changed selection, a refresh, a promotion, a new review and a finished run each take
/// the tick back.
pub proof fn law_changes_take_the_tick_back(w: Window, e: WindowEvent)
    ensures
        e == WindowEvent::Refresh ==> !next(w, e).reviewed,
        e matches WindowEvent::Selected { known, deletable, chosen } ==> selectable(w) && w.prepared
            && known ==> !next(w, e).reviewed,
        e matches WindowEvent::PromotionConfirmed { group } ==> reaction(w, e) is Promote ==> !next(
            w,
            e,
        ).reviewed,
        e == (WindowEvent::PromotionEnded { done: true }) ==> !next(w, e).reviewed,
        e matches WindowEvent::Ready { built, deletable, chosen, problems } ==> built ==> !next(
            w,
            e,
        ).reviewed,
        e is Finished ==> !next(w, e).reviewed,
        !w.reviewed && !(e is Ticked) ==> !next(w, e).reviewed,
{
}

/// A run begins only with the tick, while nothing else runs and not in a preview; where a
/// repository is at risk, only by an answer to the open question about it. Closing a message
/// or a question begins nothing.
pub proof fn law_runs_begin_with_consent(w: Window, e: WindowEvent)
    ensures
        next(w, e).deleting && !w.deleting <==> !w.deleting && reaction(w, e) is Run,
        reaction(w, e) is Run ==> w.reviewed && w.prepared && !w.busy && !w.preview && next(w, e).busy,
        reaction(w, e) == (WindowAction::Run { git_acknowledged: true }) ==> w.modal == Modal::Git
            && e is GitConfirmed,
        e matches WindowEvent::DeleteWished { risk, approved } ==> risk ==> !(reaction(w, e) is Run),
        e is GitConfirmed && w.modal != Modal::Git ==> next(w, e) == w,
        e is PromotionConfirmed && w.modal != Modal::Promote ==> next(w, e) == w && reaction(w, e)
            == WindowAction::Nothing,
        e is Dismissed ==> reaction(w, e) == WindowAction::Nothing && next(w, e).waiting == w.waiting,
{
}

/// Stopping answers an open question on an occupied file with "skip"; a question is
/// answered once, and nothing else answers one.
pub proof fn law_open_questions_are_answered(w: Window, e: WindowEvent)
    ensures
        w.busy && w.waiting ==> reaction(w, WindowEvent::Stop) == WindowAction::Answer(
            LockDecision::Skip,
        ) && next(w, WindowEvent::Stop).cancelled,
        reaction(w, e) is Answer ==> w.waiting && !next(w, e).waiting && (e is Stop
            || e is LockChosen),
        w.waiting && !next(w, e).waiting ==> reaction(w, e) is Answer,
{
}

/// The four buttons of the question about an occupied file: the first asks to try again, the
/// second to close the owners, the third to close them by force, any other to leave it.
pub proof fn law_buttons_decide_as_labelled(w: Window, choice: i32)
    requires
        w.waiting,
    ensures
        reaction(w, WindowEvent::LockChosen(choice)) == WindowAction::Answer(
            if choice == 1 {
                LockDecision::Retry
            } else if choice == 2 {
                LockDecision::CloseGracefully
            } else if choice == 3 {
                LockDecision::ForceClose
            } else {
                LockDecision::Skip
            },
        ),
{
}

/// Nothing can be deleted while something goes on, in an example, without a review, or
/// before it was ticked; and nothing that was not approved.
pub proof fn law_no_run_without_review(w: Window, e: WindowEvent)
    ensures
        reaction(w, e) is Run ==> !w.busy && !w.preview && w.reviewed && w.prepared,
        reaction(w, e) is Run ==> e == (WindowEvent::DeleteWished { risk: false, approved: true })
            || e == (WindowEvent::GitConfirmed { approved: true }),
        !w.busy && !w.preview && w.reviewed && w.prepared ==> reaction(
            w,
            WindowEvent::DeleteWished { risk: false, approved: true },
        ) == (WindowAction::Run { git_acknowledged: false }),
        w.prepared && w.reviewed && !w.busy ==> next(
            w,
            WindowEvent::DeleteWished { risk: true, approved: true },
        ).modal == Modal::Git && reaction(
            w,
            WindowEvent::DeleteWished { risk: true, approved: true },
        ) == WindowAction::Nothing,
{
}

/// While a run goes on, closing the window stops the run and does not hide it; a window at
/// rest closes.
pub proof fn law_closing_stops_a_run(w: Window)
    ensures
        w.busy ==> next(w, WindowEvent::Stop).cancelled && reaction(w, WindowEvent::Stop)
            != WindowAction::Hide,
        !w.busy ==> reaction(w, WindowEvent::Stop) == WindowAction::Hide,
{
}

/// The end of a run leaves the window at rest, with nothing to delete and an error shown if
/// some entries are left.
pub proof fn law_ended_runs_leave_the_window_at_rest(w: Window, errors: bool)
    ensures
        ({
            let n = next(w, WindowEvent::Finished { errors });
            &&& !n.busy && !n.deleting && n.finished && !n.can_delete && !n.reviewed
            &&& (n.modal == Modal::Error) == errors
        }),
{
}

/// What can be deleted is what is deletable and chosen.
pub proof fn law_only_a_choice_can_be_deleted(w: Window, deletable: bool, chosen: bool, problems: bool)
    ensures
        next(w, WindowEvent::Ready { built: true, deletable, chosen, problems }).can_delete == (
        deletable && chosen),
        !next(w, WindowEvent::Ready { built: false, deletable, chosen, problems }).can_delete,
        !w.busy && !w.finished && w.modal == Modal::Nothing && w.prepared ==> next(
            w,
            WindowEvent::Selected { known: true, deletable, chosen },
        ).can_delete == (deletable && chosen),
        w.busy || w.finished ==> next(w, WindowEvent::Selected { known: true, deletable, chosen })
            == w,
        !next(w, WindowEvent::Refresh).can_delete,
        !next(w, WindowEvent::Fatal).can_delete,
{
}

} // verus!
