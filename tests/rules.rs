use nftables_nat::config::nat_cell;
use nftables_nat::rules::{candidate_script, script_prefix};

fn single(local_port: i32, remote_port: i32, host: &str) -> nat_cell {
    nat_cell::SINGLE { local_port, remote_port, remote_domain: host.to_string() }
}

fn range(port_start: i32, port_end: i32, host: &str) -> nat_cell {
    nat_cell::RANGE { port_start, port_end, remote_domain: host.to_string() }
}

const HEADER: &str = "#!/usr/sbin/nft -f\n\nadd table ip nat\ndelete table ip nat\nadd table ip nat\nadd chain nat PREROUTING { type nat hook prerouting priority -100 ; }\nadd chain nat POSTROUTING { type nat hook postrouting priority 100 ; }\n\n";

#[test]
fn single_entry_block() {
    let block = single(10000, 443, "x").build("", "1.2.3.4", "10.0.0.5");
    assert_eq!(
        block,
        "#SINGLE { local_port: 10000, remote_port: 443, remote_domain: \"x\" }\n\
         add rule ip nat PREROUTING tcp dport 10000 counter dnat to 1.2.3.4:443\n\
         add rule ip nat PREROUTING udp dport 10000 counter dnat to 1.2.3.4:443\n\
         add rule ip nat POSTROUTING ip daddr 1.2.3.4 tcp dport 443 counter snat to 10.0.0.5\n\
         add rule ip nat POSTROUTING ip daddr 1.2.3.4 udp dport 443 counter snat to 10.0.0.5\n\n"
    );
}

#[test]
fn range_entry_block_keeps_span_on_both_sides() {
    let block = range(1000, 2000, "example.com").build("", "93.1.2.3", "10.0.0.5");
    assert_eq!(
        block,
        "#RANGE { port_start: 1000, port_end: 2000, remote_domain: \"example.com\" }\n\
         add rule ip nat PREROUTING tcp dport 1000-2000 counter dnat to 93.1.2.3:1000-2000\n\
         add rule ip nat PREROUTING udp dport 1000-2000 counter dnat to 93.1.2.3:1000-2000\n\
         add rule ip nat POSTROUTING ip daddr 93.1.2.3 tcp dport 1000-2000 counter snat to 10.0.0.5\n\
         add rule ip nat POSTROUTING ip daddr 93.1.2.3 udp dport 1000-2000 counter snat to 10.0.0.5\n\n"
    );
}

#[test]
fn interface_scopes_every_statement() {
    let block = single(80, 8080, "h").build("eth0", "1.1.1.1", "2.2.2.2");
    let lines: Vec<&str> = block.lines().collect();
    assert_eq!(lines[1], "add rule ip nat PREROUTING iifname \"eth0\" tcp dport 80 counter dnat to 1.1.1.1:8080");
    assert_eq!(lines[2], "add rule ip nat PREROUTING iifname \"eth0\" udp dport 80 counter dnat to 1.1.1.1:8080");
    assert_eq!(lines[3], "add rule ip nat POSTROUTING oifname \"eth0\" ip daddr 1.1.1.1 tcp dport 8080 counter snat to 2.2.2.2");
    assert_eq!(lines[4], "add rule ip nat POSTROUTING oifname \"eth0\" ip daddr 1.1.1.1 udp dport 8080 counter snat to 2.2.2.2");
}

#[test]
fn failed_lookups_give_empty_block() {
    assert_eq!(single(1, 2, "h").build("", "", "10.0.0.5"), "");
    assert_eq!(single(1, 2, "h").build("", "1.2.3.4", ""), "");
    assert_eq!(range(1, 2, "h").build("eth0", "", ""), "");
}

#[test]
fn label_quotes_host_as_debug_does() {
    let block = single(1, 2, "a\"b").build("", "1.2.3.4", "5.6.7.8");
    assert!(block.starts_with("#SINGLE { local_port: 1, remote_port: 2, remote_domain: \"a\\\"b\" }\n"));
    let neg = range(-5, -1, "h").build("", "1.2.3.4", "5.6.7.8");
    assert!(neg.starts_with("#RANGE { port_start: -5, port_end: -1, remote_domain: \"h\" }\n"));
}

#[test]
fn compile_block_uses_given_label() {
    let block = single(1, 2, "h").compile_block("'q'", "", "1.2.3.4", "5.6.7.8");
    assert!(block.starts_with("#SINGLE { local_port: 1, remote_port: 2, remote_domain: 'q' }\n"));
    assert_eq!(single(1, 2, "h").compile_block("'q'", "", "", "5.6.7.8"), "");
}

#[test]
fn target_ip_of_entry() {
    let cell = range(1, 2, "example.com");
    assert_eq!(cell.remote_domain(), "example.com");
    assert_eq!(cell.get_target_ip(Some("9.9.9.9".to_string())), ("example.com".to_string(), "9.9.9.9".to_string()));
    assert_eq!(cell.get_target_ip(None), ("example.com".to_string(), String::new()));
}

#[test]
fn header_is_fixed() {
    assert_eq!(script_prefix(), HEADER);
    assert_eq!(candidate_script(&vec![], &vec![], "", "10.0.0.5"), HEADER);
}

#[test]
fn end_to_end_two_entries() {
    let cells = vec![single(10000, 443, "example.com"), range(1000, 2000, "example.com")];
    let ips = vec!["93.1.2.3".to_string(), "93.1.2.3".to_string()];
    let script = candidate_script(&cells, &ips, "", "10.0.0.5");
    let expected = format!(
        "{}{}{}",
        HEADER,
        cells[0].build("", "93.1.2.3", "10.0.0.5"),
        cells[1].build("", "93.1.2.3", "10.0.0.5")
    );
    assert_eq!(script, expected);
    let body = &script[HEADER.len()..];
    assert_eq!(body.lines().filter(|l| l.starts_with("add rule")).count(), 8);
    assert_eq!(body.lines().filter(|l| l.starts_with('#')).count(), 2);
    assert!(body.find("#SINGLE").unwrap() < body.find("#RANGE").unwrap());
}

#[test]
fn unresolved_entry_is_dropped_alone() {
    let cells = vec![single(1, 2, "a"), single(3, 4, "b"), range(5, 6, "c")];
    let ips = vec!["1.1.1.1".to_string(), String::new(), "3.3.3.3".to_string()];
    let script = candidate_script(&cells, &ips, "", "10.0.0.5");
    let without = candidate_script(
        &vec![single(1, 2, "a"), range(5, 6, "c")],
        &vec!["1.1.1.1".to_string(), "3.3.3.3".to_string()],
        "",
        "10.0.0.5",
    );
    assert_eq!(script, without);
    assert!(script.contains("dnat to 1.1.1.1:2"));
    assert!(script.contains("dnat to 3.3.3.3:5-6"));
    assert!(!script.contains("dport 3 "));
}

#[test]
fn changed_ip_changes_script() {
    let cells = vec![single(1, 2, "a"), single(3, 4, "b")];
    let before = candidate_script(&cells, &vec!["1.1.1.1".to_string(), "2.2.2.2".to_string()], "", "9.9.9.9");
    let after = candidate_script(&cells, &vec!["1.1.1.1".to_string(), "2.2.2.3".to_string()], "", "9.9.9.9");
    assert_ne!(before, after);
}
