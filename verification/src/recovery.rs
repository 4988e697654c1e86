//! What becomes of a checkout after its install or uninstall script failed.

use vstd::prelude::*;

verus! {

/// What to do with a package's checkout after a failed script.
#[derive(Clone, Copy, Debug, PartialEq, Eq)]
pub enum Recovery {
    /// Check out again the commit the checkout was at before, forcibly,
    /// and clean what the script left.
    RestoreHead,
    /// Delete the checkout.
    DeleteCheckout,
    /// Leave the checkout as it is.
    LeaveAsIs,
}

/// After a failed install: a checkout that existed before, had a commit
/// checked out and still opens as a repository goes back to that commit;
/// otherwise a checkout that exists now (a new clone, or one that no longer
/// opens) is deleted; otherwise there is nothing to do.
pub fn after_failed_install(existed: bool, had_head: bool, opens: bool, exists_now: bool) -> (res:
    Recovery)
    ensures
        existed && had_head && opens ==> res matches Recovery::RestoreHead,
        !(existed && had_head && opens) && exists_now ==> res matches Recovery::DeleteCheckout,
        !(existed && had_head && opens) && !exists_now ==> res matches Recovery::LeaveAsIs,
{
    if existed && had_head && opens {
        Recovery::RestoreHead
    } else if exists_now {
        Recovery::DeleteCheckout
    } else {
        Recovery::LeaveAsIs
    }
}

/// After a failed uninstall: a checkout that existed before, had a commit
/// checked out and still opens as a repository goes back to that commit;
/// otherwise it is left as it is.
pub fn after_failed_uninstall(existed: bool, had_head: bool, opens: bool) -> (res: Recovery)
    ensures
        existed && had_head && opens ==> res matches Recovery::RestoreHead,
        !(existed && had_head && opens) ==> res matches Recovery::LeaveAsIs,
{
    if existed && had_head && opens {
        Recovery::RestoreHead
    } else {
        Recovery::LeaveAsIs
    }
}

} // verus!
