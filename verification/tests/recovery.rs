use justpkg::recovery::{after_failed_install, after_failed_uninstall, Recovery};

#[test]
fn failed_install_restores_an_existing_checkout() {
    assert_eq!(after_failed_install(true, true, true, true), Recovery::RestoreHead);
}

#[test]
fn failed_install_deletes_a_new_clone() {
    assert_eq!(after_failed_install(false, false, true, true), Recovery::DeleteCheckout);
    assert_eq!(after_failed_install(true, false, true, true), Recovery::DeleteCheckout);
    assert_eq!(after_failed_install(true, true, false, true), Recovery::DeleteCheckout);
}

#[test]
fn failed_install_without_checkout_leaves_nothing() {
    assert_eq!(after_failed_install(false, false, false, false), Recovery::LeaveAsIs);
}

#[test]
fn failed_uninstall_restores_or_leaves() {
    assert_eq!(after_failed_uninstall(true, true, true), Recovery::RestoreHead);
    assert_eq!(after_failed_uninstall(true, false, true), Recovery::LeaveAsIs);
    assert_eq!(after_failed_uninstall(false, true, true), Recovery::LeaveAsIs);
    assert_eq!(after_failed_uninstall(true, true, false), Recovery::LeaveAsIs);
}
