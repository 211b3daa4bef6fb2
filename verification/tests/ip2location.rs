use fail2ban_stats::bans::{BannedIp, LocatedBannedIp};
use fail2ban_stats::ip2location::{locate_banned_ips, IP2Location, IPRange};

fn row(fields: &[&str]) -> Vec<String> {
    fields.iter().map(|f| f.to_string()).collect()
}

#[test]
fn test_build_with_valid_ip2location_data() {
    // Given
    let data = vec![
        row(&["3758094336", "3758095359", "HK", "Hong Kong"]),
        row(&["3758095360", "3758095871", "CN", "China"]),
    ];

    // When
    let result = IP2Location::from_rows(&data);

    // Then
    assert_eq!(
        result.ranges(),
        &vec![
            IPRange {
                start: 3758094336,
                end: 3758095359,
                country_code: String::from("HK"),
                country_name: String::from("Hong Kong"),
            },
            IPRange {
                start: 3758095360,
                end: 3758095871,
                country_code: String::from("CN"),
                country_name: String::from("China"),
            },
        ]
    );
}

#[test]
fn test_build_with_invalid_ip2location_data() {
    // Given: the second row is malformed (wrong field count)
    let data = vec![
        row(&["3758094336", "3758095359", "HK", "Hong Kong"]),
        row(&["3758095360", "China"]),
    ];

    // When
    let result = IP2Location::from_rows(&data);

    // Then
    assert_eq!(
        result.ranges(),
        &vec![IPRange {
            start: 3758094336,
            end: 3758095359,
            country_code: String::from("HK"),
            country_name: String::from("Hong Kong"),
        }]
    );
}

#[test]
fn test_build_skips_non_numeric_bounds() {
    let data = vec![
        row(&["start", "3758095359", "HK", "Hong Kong"]),
        row(&["16777216", "16785407", "CN", "China"]),
        row(&["16785408", "end", "FR", "France"]),
    ];

    let result = IP2Location::from_rows(&data);

    assert_eq!(result.ranges().len(), 1);
    assert_eq!(result.ranges()[0].country_name, "China");
}

#[test]
fn test_find_country_name_of_ip_found() {
    // Given
    let ip_range_one = IPRange {
        start: 1,
        end: 16777215,
        country_code: String::from("HK"),
        country_name: String::from("Hong Kong"),
    };
    let ip_range_two = IPRange {
        start: 16777216,
        end: 16785407,
        country_code: String::from("CN"),
        country_name: String::from("China"),
    };
    let ip2location = IP2Location::new(vec![ip_range_one.clone(), ip_range_two]);
    let target_ip = 100;

    // When
    let result = ip2location.find_country_name_of_ip(target_ip);

    // Then
    assert_eq!(result.unwrap(), ip_range_one.country_name);
}

#[test]
fn test_find_country_name_of_ip_not_found() {
    // Given
    let ip_range_one = IPRange {
        start: 100,
        end: 16777215,
        country_code: String::from("HK"),
        country_name: String::from("Hong Kong"),
    };
    let ip_range_two = IPRange {
        start: 16777216,
        end: 16785407,
        country_code: String::from("CN"),
        country_name: String::from("China"),
    };

    let ip2location = IP2Location::new(vec![ip_range_one, ip_range_two]);
    let target_ip = 50;

    // When
    let result = ip2location.find_country_name_of_ip(target_ip);

    // Then
    assert_eq!(result.is_none(), true);
}

#[test]
fn test_find_country_name_of_ip_empty_table() {
    let ip2location = IP2Location::new(Vec::new());
    assert!(ip2location.find_country_name_of_ip(0).is_none());
    assert!(ip2location.find_country_name_of_ip(4294967295).is_none());
}

#[test]
fn test_find_country_name_of_ip_boundaries() {
    let ip2location = IP2Location::new(vec![
        IPRange {
            start: 100,
            end: 200,
            country_code: String::from("HK"),
            country_name: String::from("Hong Kong"),
        },
        IPRange {
            start: 300,
            end: 300,
            country_code: String::from("CN"),
            country_name: String::from("China"),
        },
    ]);
    assert_eq!(ip2location.find_country_name_of_ip(100).unwrap(), "Hong Kong");
    assert_eq!(ip2location.find_country_name_of_ip(200).unwrap(), "Hong Kong");
    assert_eq!(ip2location.find_country_name_of_ip(300).unwrap(), "China");
    // gaps and the outside of the span
    assert!(ip2location.find_country_name_of_ip(99).is_none());
    assert!(ip2location.find_country_name_of_ip(201).is_none());
    assert!(ip2location.find_country_name_of_ip(299).is_none());
    assert!(ip2location.find_country_name_of_ip(301).is_none());
}

#[test]
fn test_find_country_name_of_ip_repeat_calls_agree() {
    let ip2location = IP2Location::new(vec![IPRange {
        start: 10,
        end: 20,
        country_code: String::from("DE"),
        country_name: String::from("Germany"),
    }]);
    assert_eq!(
        ip2location.find_country_name_of_ip(15),
        ip2location.find_country_name_of_ip(15)
    );
    assert_eq!(
        ip2location.find_country_name_of_ip(25),
        ip2location.find_country_name_of_ip(25)
    );
}

#[test]
fn test_locate_banned_ips_drops_unresolved() {
    let ip2location = IP2Location::new(vec![IPRange {
        start: 16777216, // 1.0.0.0
        end: 16777471,   // 1.0.0.255
        country_code: String::from("CN"),
        country_name: String::from("China"),
    }]);
    let bans = vec![
        BannedIp { ip: "1.0.0.7".to_string(), number_of_bans: 3 },
        BannedIp { ip: "not an address".to_string(), number_of_bans: 9 },
        BannedIp { ip: "9.9.9.9".to_string(), number_of_bans: 4 },
        BannedIp { ip: "1.0.0.255".to_string(), number_of_bans: 1 },
    ];

    let located = locate_banned_ips(&ip2location, &bans);

    assert_eq!(
        located,
        vec![
            LocatedBannedIp {
                ip: BannedIp { ip: "1.0.0.7".to_string(), number_of_bans: 3 },
                country_name: "China".to_string(),
            },
            LocatedBannedIp {
                ip: BannedIp { ip: "1.0.0.255".to_string(), number_of_bans: 1 },
                country_name: "China".to_string(),
            },
        ]
    );
}

#[test]
fn test_resolve_country() {
    let ip2location = IP2Location::new(vec![IPRange {
        start: 2130706432,
        end: 2130706687,
        country_code: String::from("FR"),
        country_name: String::from("France"),
    }]);
    assert_eq!(ip2location.resolve_country("127.0.0.1").unwrap(), "France");
    assert!(ip2location.resolve_country("10.0.0.1").is_none());
    assert!(ip2location.resolve_country("not an address").is_none());
}
