//! The update tab: the decisions around a system upgrade, as a state
//! machine; running the upgrade is left to the caller.

use vstd::prelude::*;

verus! {

/// What the update tab shows.
#[derive(PartialEq, Eq, Structural, Clone, Copy, Debug)]
pub enum UpdateStatus {
    /// Nothing has been asked yet.
    Idle,
    /// An upgrade is running.
    Updating,
    /// The last upgrade succeeded.
    UpToDate,
    /// The last upgrade failed.
    Failed,
}

/// What happens to the update tab.
#[derive(PartialEq, Eq, Structural, Clone, Copy, Debug)]
pub enum UpdateEvent {
    /// The "Check For Updates" button was pressed.
    CheckPressed,
    /// The upgrade that was started has ended.
    UpgradeEnded { succeeded: bool },
}

/// What the caller is to do next.
#[derive(PartialEq, Eq, Structural, Clone, Copy, Debug)]
pub enum UpdateAction {
    /// Start the system upgrade, and report its end.
    StartUpgrade,
    /// Nothing.
    Wait,
}

/// The next status and action of the update tab.
pub open spec fn next_update(status: UpdateStatus, event: UpdateEvent) -> (UpdateStatus, UpdateAction) {
    match event {
        UpdateEvent::CheckPressed => if status == UpdateStatus::Updating {
            (status, UpdateAction::Wait)
        } else {
            (UpdateStatus::Updating, UpdateAction::StartUpgrade)
        },
        UpdateEvent::UpgradeEnded { succeeded } => if succeeded {
            (UpdateStatus::UpToDate, UpdateAction::Wait)
        } else {
            (UpdateStatus::Failed, UpdateAction::Wait)
        },
    }
}

/// The button is disabled while an upgrade is running, so a press then is
/// ignored; a press otherwise starts the upgrade. The end of an upgrade
/// shows whether it succeeded.
pub fn update_step(status: UpdateStatus, event: UpdateEvent) -> (r: (UpdateStatus, UpdateAction))
    ensures
        r == next_update(status, event),
{
    match event {
        UpdateEvent::CheckPressed => {
            if status == UpdateStatus::Updating {
                (status, UpdateAction::Wait)
            } else {
                (UpdateStatus::Updating, UpdateAction::StartUpgrade)
            }
        },
        UpdateEvent::UpgradeEnded { succeeded } => {
            if succeeded {
                (UpdateStatus::UpToDate, UpdateAction::Wait)
            } else {
                (UpdateStatus::Failed, UpdateAction::Wait)
            }
        },
    }
}

/// Whether the button is disabled.
pub fn is_updating(status: UpdateStatus) -> (r: bool)
    ensures
        r == (status == UpdateStatus::Updating),
{
    status == UpdateStatus::Updating
}

/// The message shown for a status.
pub open spec fn status_text(status: UpdateStatus) -> Seq<char> {
    match status {
        UpdateStatus::Idle => ""@,
        UpdateStatus::Updating => "Updating..."@,
        UpdateStatus::UpToDate => "Up to date"@,
        UpdateStatus::Failed => "Something Went Wrong. Try Again"@,
    }
}

pub fn status_message(status: UpdateStatus) -> (m: &'static str)
    ensures
        m@ == status_text(status),
        status == UpdateStatus::Idle ==> m@ == ""@,
        status == UpdateStatus::Updating ==> m@ == "Updating..."@,
        status == UpdateStatus::UpToDate ==> m@ == "Up to date"@,
        status == UpdateStatus::Failed ==> m@ == "Something Went Wrong. Try Again"@,
{
    match status {
        UpdateStatus::Idle => "",
        UpdateStatus::Updating => "Updating...",
        UpdateStatus::UpToDate => "Up to date",
        UpdateStatus::Failed => "Something Went Wrong. Try Again",
    }
}

/// From any status, a press that starts an upgrade, then its end, leave
/// the tab showing the outcome with the button enabled; a second press
/// while the upgrade runs starts nothing.
pub proof fn law_one_upgrade_at_a_time(status: UpdateStatus, succeeded: bool)
    requires
        status != UpdateStatus::Updating,
    ensures
        next_update(status, UpdateEvent::CheckPressed).1 == UpdateAction::StartUpgrade,
        next_update(next_update(status, UpdateEvent::CheckPressed).0, UpdateEvent::CheckPressed).1
            == UpdateAction::Wait,
        next_update(
            next_update(status, UpdateEvent::CheckPressed).0,
            UpdateEvent::UpgradeEnded { succeeded },
        ).0 == if succeeded {
            UpdateStatus::UpToDate
        } else {
            UpdateStatus::Failed
        },
        next_update(
            next_update(status, UpdateEvent::CheckPressed).0,
            UpdateEvent::UpgradeEnded { succeeded },
        ).0 != UpdateStatus::Updating,
{
}

} // verus!
