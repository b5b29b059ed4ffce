use nftables_nat::config::nat_cell;
use nftables_nat::reconcile::Reconciler;
use nftables_nat::rules::candidate_script;

#[test]
fn first_cycle_applies_and_repeat_does_not() {
    let cells = vec![nat_cell::SINGLE { local_port: 1, remote_port: 2, remote_domain: "a".to_string() }];
    let ips = vec!["1.2.3.4".to_string()];
    let mut r = Reconciler::new();
    assert_eq!(r.latest_script(), "");
    assert!(r.observe(candidate_script(&cells, &ips, "", "10.0.0.5")));
    assert!(!r.observe(candidate_script(&cells, &ips, "", "10.0.0.5")));
    assert_eq!(r.latest_script(), candidate_script(&cells, &ips, "", "10.0.0.5"));
}

#[test]
fn new_address_applies_again() {
    let cells = vec![nat_cell::RANGE { port_start: 1, port_end: 9, remote_domain: "a".to_string() }];
    let mut r = Reconciler::new();
    assert!(r.observe(candidate_script(&cells, &vec!["1.2.3.4".to_string()], "", "10.0.0.5")));
    assert!(r.observe(candidate_script(&cells, &vec!["1.2.3.5".to_string()], "", "10.0.0.5")));
    assert!(r.observe(candidate_script(&cells, &vec![String::new()], "", "10.0.0.5")));
    assert!(!r.observe(candidate_script(&cells, &vec![String::new()], "", "10.0.0.5")));
}
