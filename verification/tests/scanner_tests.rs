use skanner::addr::{parse_ipv4, Ipv4Addr};
use skanner::scanner::{scan_ip, Report, Scanner};

#[test]
fn test_get_ips_24() {
    let scanner = Scanner::new("192.168.1.0".to_string(), None);
    let ips = scanner.get_ips();

    assert_eq!(ips.len(), 254);

    for i in 0..=253 {
        assert_eq!(ips[i], parse_ipv4(&format!("192.168.1.{}", i + 1)).unwrap());
    }
}

#[test]
fn test_get_ips_8() {
    let scanner = Scanner::new("192.0.0.0".to_string(), None);
    let ips = scanner.get_ips();
    let ips_to_compare = vec![
        "192.1.0.0",
        "192.1.1.1",
        "192.1.1.254",
        "192.254.254.254",
        "192.255.255.254",
        "192.254.128.254",
    ];

    for ip in ips_to_compare {
        assert_eq!(ips.contains(&parse_ipv4(ip).unwrap()), true, "Should contain [{}]", ip);
    }
}

#[test]
fn test_get_one_ip() {
    let scanner = Scanner::new("192.168.1.1".to_string(), None);
    let ips = scanner.get_ips();

    assert_eq!(ips.len(), 1);
    assert_eq!(ips[0], parse_ipv4("192.168.1.1").unwrap());
}

#[test]
fn test_get_ips_twice_identical() {
    let scanner = Scanner::new("10.20.0.0".to_string(), None);
    let first = scanner.get_ips();
    let second = scanner.get_ips();
    assert_eq!(first, second);
}

#[test]
fn test_get_ips_all_wildcards() {
    let scanner = Scanner::new("0.0.0.0".to_string(), None);
    let ips = scanner.get_ips();
    assert_eq!(ips.len(), 0);
}

#[test]
fn test_default_ports() {
    let scanner = Scanner::new("10.0.0.1".to_string(), None);
    assert_eq!(scanner.ports, vec![80, 22, 443, 8080]);
}

#[test]
fn test_scan_ip_keeps_request_order() {
    let ip = Ipv4Addr::new(10, 0, 0, 1);
    let result = scan_ip(ip, vec![80, 22, 443], &vec![true, false, true]);
    assert_eq!(result.ip, ip);
    assert_eq!(result.open_ports, vec![80, 443]);
}

#[test]
fn test_scan_ip_no_open_ports() {
    let ip = Ipv4Addr::new(192, 168, 0, 7);
    let result = scan_ip(ip, vec![80, 22], &vec![false, false]);
    assert_eq!(result.ip, ip);
    assert_eq!(result.open_ports, Vec::<u16>::new());
}

#[test]
fn test_scan_single_host_one_open_port() {
    let mut scanner = Scanner::new("10.9.8.7".to_string(), Some(vec![22, 80]));
    scanner.scan(&vec![vec![false, true]]);
    assert_eq!(scanner.result.len(), 1);
    assert_eq!(scanner.result[0].ip, parse_ipv4("10.9.8.7").unwrap());
    assert_eq!(scanner.result[0].open_ports, vec![80]);
}

#[test]
fn test_scan_keeps_address_order() {
    let mut scanner = Scanner::new("192.168.5.0".to_string(), Some(vec![80]));
    let ips = scanner.get_ips();
    let probes: Vec<Vec<bool>> = (0..ips.len()).map(|k| vec![k % 2 == 0]).collect();
    scanner.scan(&probes);
    assert_eq!(scanner.result.len(), ips.len());
    for k in 0..ips.len() {
        assert_eq!(scanner.result[k].ip, ips[k]);
        if k % 2 == 0 {
            assert_eq!(scanner.result[k].open_ports, vec![80]);
        } else {
            assert_eq!(scanner.result[k].open_ports, Vec::<u16>::new());
        }
    }
}

#[test]
fn test_open_ports_subset_of_request() {
    let ports = vec![80, 22, 443, 8080];
    let patterns = vec![
        vec![false, false, false, false],
        vec![true, false, true, false],
        vec![true, true, true, true],
        vec![false, true, false, true],
    ];
    for open in patterns {
        let result = scan_ip(Ipv4Addr::new(10, 1, 2, 3), ports.clone(), &open);
        let mut last_pos: Option<usize> = None;
        for p in &result.open_ports {
            let pos = ports.iter().position(|q| q == p).unwrap();
            if let Some(lp) = last_pos {
                assert!(pos > lp);
            }
            last_pos = Some(pos);
        }
    }
}

#[test]
fn test_parse_ipv4_valid() {
    assert_eq!(parse_ipv4("0.0.0.0").unwrap(), Ipv4Addr::new(0, 0, 0, 0));
    assert_eq!(parse_ipv4("255.255.255.255").unwrap(), Ipv4Addr::new(255, 255, 255, 255));
    assert_eq!(parse_ipv4("192.168.1.0").unwrap(), Ipv4Addr::new(192, 168, 1, 0));
    assert_eq!(parse_ipv4("10.0.0.1").unwrap(), Ipv4Addr::new(10, 0, 0, 1));
}

#[test]
fn test_parse_ipv4_invalid() {
    assert!(parse_ipv4("").is_err());
    assert!(parse_ipv4("1.2.3").is_err());
    assert!(parse_ipv4("1.2.3.4.5").is_err());
    assert!(parse_ipv4("256.1.1.1").is_err());
    assert!(parse_ipv4("01.2.3.4").is_err());
    assert!(parse_ipv4("1..2.3").is_err());
    assert!(parse_ipv4("a.b.c.d").is_err());
    assert!(parse_ipv4("1.2.3.4 ").is_err());
    assert!(parse_ipv4(" 1.2.3.4").is_err());
    assert!(parse_ipv4("1.2.3.-4").is_err());
}

#[test]
fn test_ipv4_string_round_trip() {
    let a = Ipv4Addr::new(172, 16, 0, 254);
    let s = skanner::addr::ipv4_string(&a);
    assert_eq!(s, "172.16.0.254");
    assert_eq!(parse_ipv4(&s).unwrap(), a);
}

#[test]
fn test_dec_string() {
    assert_eq!(skanner::addr::dec_string(0), "0");
    assert_eq!(skanner::addr::dec_string(7), "7");
    assert_eq!(skanner::addr::dec_string(80), "80");
    assert_eq!(skanner::addr::dec_string(65535), "65535");
}

#[test]
fn test_report_format() {
    let mut scanner = Scanner::new("10.9.8.7".to_string(), Some(vec![22, 80]));
    scanner.scan(&vec![vec![false, true]]);
    let report = scanner.report();
    let expected = "Scanner for 10.9.8.7\nPorts: [22, 80]\n=========================\n10.9.8.7:              80\n\n";
    assert_eq!(report, expected);
}

#[test]
fn test_report_suppresses_hosts_without_open_ports() {
    let mut scanner = Scanner::new("10.9.8.7".to_string(), Some(vec![22, 80]));
    scanner.scan(&vec![vec![false, false]]);
    let report = scanner.report();
    let expected = "Scanner for 10.9.8.7\nPorts: [22, 80]\n=========================\n\n";
    assert_eq!(report, expected);
}
