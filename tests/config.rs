use nftables_nat::config::{nat_cell, parse_config, parse_line, ParsedLine};

fn domain(c: &nat_cell) -> &str {
    match c {
        nat_cell::SINGLE { remote_domain, .. } => remote_domain,
        nat_cell::RANGE { remote_domain, .. } => remote_domain,
    }
}

#[test]
fn parses_both_kinds_in_order() {
    let p = parse_config("SINGLE,10000,443,example.com\nRANGE,1000,2000,example.com").ok().unwrap();
    assert_eq!(p.cells.len(), 2);
    assert!(p.invalid_lines.is_empty());
    match &p.cells[0] {
        nat_cell::SINGLE { local_port, remote_port, remote_domain } => {
            assert_eq!((*local_port, *remote_port, remote_domain.as_str()), (10000, 443, "example.com"));
        }
        _ => panic!("expected SINGLE"),
    }
    match &p.cells[1] {
        nat_cell::RANGE { port_start, port_end, remote_domain } => {
            assert_eq!((*port_start, *port_end, remote_domain.as_str()), (1000, 2000, "example.com"));
        }
        _ => panic!("expected RANGE"),
    }
}

#[test]
fn three_field_line_is_reported_and_skipped() {
    let p = parse_config("SINGLE,1,2\nSINGLE,3,4,b.com\n").ok().unwrap();
    assert_eq!(p.invalid_lines, vec!["SINGLE,1,2".to_string()]);
    assert_eq!(p.cells.len(), 1);
    assert_eq!(domain(&p.cells[0]), "b.com");
}

#[test]
fn blank_lines_and_unknown_keywords_are_silent() {
    let p = parse_config("\n   \nsingle,1,2,a\nFOO,1,2,a\nRANGE,1,2,a\n").ok().unwrap();
    assert!(p.invalid_lines.is_empty());
    assert_eq!(p.cells.len(), 1);
}

#[test]
fn fields_are_trimmed_and_crlf_normalized() {
    let p = parse_config("  RANGE , 10 , 20 , host.org  \r\nbad line\r\nSINGLE,1,2,x\r").ok().unwrap();
    assert_eq!(p.invalid_lines, vec!["bad line".to_string()]);
    assert_eq!(p.cells.len(), 2);
    match &p.cells[0] {
        nat_cell::RANGE { port_start, port_end, remote_domain } => {
            assert_eq!((*port_start, *port_end, remote_domain.as_str()), (10, 20, "host.org"));
        }
        _ => panic!("expected RANGE"),
    }
    assert_eq!(domain(&p.cells[1]), "x");
}

#[test]
fn non_numeric_port_is_an_error() {
    let e = parse_config("SINGLE,1,2,a\nbad\nRANGE,1,x,b\nSINGLE,q,2,c").err().unwrap();
    assert_eq!(e.line, 2);
    assert_eq!(e.text, "RANGE,1,x,b");
    let overflow = parse_config("SINGLE,2147483648,1,a").err().unwrap();
    assert_eq!(overflow.line, 0);
}

#[test]
fn unknown_keyword_does_not_read_ports() {
    let p = parse_config("OTHER,x,y,z").ok().unwrap();
    assert!(p.cells.is_empty());
    assert!(p.invalid_lines.is_empty());
}

#[test]
fn line_kinds() {
    assert!(matches!(parse_line(""), ParsedLine::Blank));
    assert!(matches!(parse_line("a,b,c"), ParsedLine::Malformed));
    assert!(matches!(parse_line("a,b,c,d,e"), ParsedLine::Malformed));
    assert!(matches!(parse_line("X,1,2,h"), ParsedLine::Unknown));
    assert!(matches!(parse_line("SINGLE,1,,h"), ParsedLine::BadNumber));
    assert!(matches!(parse_line("SINGLE,+1,-2,h"), ParsedLine::Entry(nat_cell::SINGLE { local_port: 1, remote_port: -2, .. })));
}
