use fail2ban_stats::bans::{BannedIp, LocatedBannedIp};
use fail2ban_stats::stats::{CountryBans, Stats};

fn located(ip: &str, number_of_bans: u32, country_name: &str) -> LocatedBannedIp {
    LocatedBannedIp {
        ip: BannedIp { ip: ip.to_string(), number_of_bans },
        country_name: country_name.to_string(),
    }
}

#[test]
fn test_get_top_banned_ips() {
    // Given
    let ip1 = located("115.238.245.4", 8, "Germany");
    let ip2 = located("223.111.139.244", 5, "France");
    let ip3 = located("61.184.247.11", 20, "China");
    let ip4 = located("122.226.181.164", 10, "China");
    let stats = Stats::new(vec![ip1.clone(), ip2.clone(), ip3.clone(), ip4.clone()]);

    // When
    let result = stats.get_top_banned_ips(4);

    // Then
    assert_eq!(result, vec![ip3, ip4, ip1, ip2]);
}

#[test]
fn test_get_top_banned_countries() {
    // Given
    let ip1 = located("115.238.245.4", 8, "Germany");
    let ip2 = located("223.111.139.244", 5, "France");
    let ip3 = located("61.184.247.11", 20, "China");
    let ip4 = located("122.226.181.164", 10, "China");
    let stats = Stats::new(vec![ip1, ip2, ip3, ip4]);

    // When
    let result = stats.get_top_banned_countries(2);

    // Then
    assert_eq!(
        result,
        vec![
            CountryBans { country_name: "China".to_string(), number_of_bans: 30 },
            CountryBans { country_name: "Germany".to_string(), number_of_bans: 8 },
        ]
    );
}

#[test]
fn test_top_limits_are_clamped() {
    let stats = Stats::new(vec![
        located("1.1.1.1", 2, "France"),
        located("2.2.2.2", 7, "Spain"),
    ]);

    assert_eq!(stats.get_top_banned_ips(0).len(), 0);
    assert_eq!(stats.get_top_banned_ips(1).len(), 1);
    assert_eq!(stats.get_top_banned_ips(1)[0].ip.ip, "2.2.2.2");
    assert_eq!(stats.get_top_banned_ips(100).len(), 2);
    assert_eq!(stats.get_top_banned_countries(100).len(), 2);
    assert_eq!(stats.get_top_banned_countries(0).len(), 0);
}

#[test]
fn test_empty_input_yields_empty_views() {
    let stats = Stats::new(Vec::new());
    assert_eq!(stats.get_top_banned_ips(10).len(), 0);
    assert_eq!(stats.get_top_banned_countries(10).len(), 0);
}

#[test]
fn test_tied_ips_are_ordered_by_address() {
    // equal counts: the address string, ascending, decides
    let a = located("9.0.0.1", 5, "France");
    let b = located("1.0.0.1", 5, "Spain");
    let c = located("5.0.0.1", 9, "Italy");
    let stats = Stats::new(vec![a.clone(), b.clone(), c.clone()]);

    let result = stats.get_top_banned_ips(3);
    assert_eq!(result, vec![c, b, a]);
}

#[test]
fn test_tied_countries_are_ordered_by_name() {
    // equal totals: the country name, ascending, decides
    let stats = Stats::new(vec![
        located("1.1.1.1", 4, "Portugal"),
        located("2.2.2.2", 4, "Austria"),
        located("3.3.3.3", 4, "Malta"),
    ]);

    let result = stats.get_top_banned_countries(3);
    assert_eq!(
        result,
        vec![
            CountryBans { country_name: "Austria".to_string(), number_of_bans: 4 },
            CountryBans { country_name: "Malta".to_string(), number_of_bans: 4 },
            CountryBans { country_name: "Portugal".to_string(), number_of_bans: 4 },
        ]
    );
}

#[test]
fn test_country_totals_group_by_exact_name() {
    let stats = Stats::new(vec![
        located("1.1.1.1", 1, "China"),
        located("2.2.2.2", 2, "china"),
        located("3.3.3.3", 4, "China"),
    ]);

    let result = stats.get_top_banned_countries(10);
    assert_eq!(
        result,
        vec![
            CountryBans { country_name: "China".to_string(), number_of_bans: 5 },
            CountryBans { country_name: "china".to_string(), number_of_bans: 2 },
        ]
    );
}

#[test]
fn test_stats_construction_is_repeatable() {
    let input = vec![
        located("8.8.8.8", 3, "Greece"),
        located("4.4.4.4", 3, "Greece"),
        located("6.6.6.6", 1, "Norway"),
    ];
    let stats1 = Stats::new(input.clone());
    let stats2 = Stats::new(input);

    assert_eq!(stats1.get_top_banned_ips(10), stats2.get_top_banned_ips(10));
    assert_eq!(
        stats1.get_top_banned_countries(10),
        stats2.get_top_banned_countries(10)
    );
}
