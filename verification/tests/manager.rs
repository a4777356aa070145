use quickfile::manager::{manager_delay_ms, manager_step, ManagerStep};

#[test]
fn policy_tears_down_without_clients() {
    assert_eq!(manager_step(0, true), ManagerStep::Disconnect);
    assert_eq!(manager_step(0, false), ManagerStep::Disconnect);
}

#[test]
fn policy_holds_or_dials_with_clients() {
    assert_eq!(manager_step(1, true), ManagerStep::Hold);
    assert_eq!(manager_step(3, false), ManagerStep::Connect);
}

#[test]
fn delays_match_the_policy() {
    assert_eq!(manager_delay_ms(ManagerStep::Disconnect, false), 1000);
    assert_eq!(manager_delay_ms(ManagerStep::Hold, false), 1000);
    assert_eq!(manager_delay_ms(ManagerStep::Connect, true), 5000);
    assert_eq!(manager_delay_ms(ManagerStep::Connect, false), 2000);
}
