use pbox_speedtest::ip::IpAddress;
use pbox_speedtest::ip_list::{
    collect_ips, plan_ip_source, IpSource, MissingSetting, Rejection, SourcePlan, TextOrigin,
};
use pbox_speedtest::cidr::CidrError;
use pbox_speedtest::ipset::IpSet;

#[test]
fn lines_are_trimmed_sorted_and_deduplicated() {
    let text = "1.1.1.1\n# comment\n\n  1.0.0.1  \r\n1.1.1.1\nbad\n10.0.0.0/31\r\n::1\n";
    let out = collect_ips(text, false, 4096);
    assert_eq!(
        out.ips,
        vec![
            IpAddress::V4(0x0100_0001),
            IpAddress::V4(0x0101_0101),
            IpAddress::V4(0x0a00_0000),
            IpAddress::V4(0x0a00_0001),
            IpAddress::V6(1),
        ]
    );
    assert_eq!(out.rejected, vec![Rejection::BadIp { entry: "bad".to_string() }]);
}

#[test]
fn comma_separated_list() {
    let out = collect_ips("1.1.1.1, 1.0.0.1,,#x,1.0.0.1", true, 4096);
    assert_eq!(out.ips, vec![IpAddress::V4(0x0100_0001), IpAddress::V4(0x0101_0101)]);
    assert!(out.rejected.is_empty());
    // with lines the whole text is one entry
    let out = collect_ips("1.1.1.1,1.0.0.1", false, 4096);
    assert!(out.ips.is_empty());
    assert_eq!(out.rejected, vec![Rejection::BadIp { entry: "1.1.1.1,1.0.0.1".to_string() }]);
}

#[test]
fn oversized_blocks_are_reported_in_order() {
    let out = collect_ips("10.0.0.0/8\n1.2.3.4/40\n8.8.8.8\n", false, 4096);
    assert_eq!(out.ips, vec![IpAddress::V4(0x0808_0808)]);
    assert_eq!(
        out.rejected,
        vec![
            Rejection::BadCidr {
                entry: "10.0.0.0/8".to_string(),
                error: CidrError::TooMany { count: 1 << 24, max: 4096 },
            },
            Rejection::BadCidr { entry: "1.2.3.4/40".to_string(), error: CidrError::V4PrefixOutOfRange },
        ]
    );
}

#[test]
fn overlapping_blocks_merge() {
    let out = collect_ips("10.0.0.2/31\n10.0.0.0/30\n10.0.0.3\n", false, 16);
    let want: Vec<IpAddress> = (0u32..4).map(|i| IpAddress::V4(0x0a00_0000 + i)).collect();
    assert_eq!(out.ips, want);
}

#[test]
fn empty_text_gives_nothing() {
    let out = collect_ips("", false, 4096);
    assert!(out.ips.is_empty());
    assert!(out.rejected.is_empty());
}

#[test]
fn source_planning() {
    let plan = |o, c| Ok(SourcePlan { origin: o, split_on_comma: c });
    assert_eq!(plan_ip_source(IpSource::Auto, true, true, true), plan(TextOrigin::File, false));
    assert_eq!(plan_ip_source(IpSource::Auto, false, true, true), plan(TextOrigin::Inline, true));
    assert_eq!(plan_ip_source(IpSource::Auto, false, true, false), plan(TextOrigin::Inline, true));
    assert_eq!(plan_ip_source(IpSource::Auto, false, false, true), plan(TextOrigin::Url, false));
    assert_eq!(plan_ip_source(IpSource::Auto, false, false, false), plan(TextOrigin::Stdin, false));
    assert_eq!(plan_ip_source(IpSource::File, false, true, false), Err(MissingSetting::Input));
    assert_eq!(plan_ip_source(IpSource::Inline, true, false, false), Err(MissingSetting::Ips));
    assert_eq!(plan_ip_source(IpSource::Inline, true, true, true), plan(TextOrigin::Inline, true));
    assert_eq!(plan_ip_source(IpSource::Url, false, false, false), Err(MissingSetting::Url));
    assert_eq!(plan_ip_source(IpSource::Stdin, false, true, false), plan(TextOrigin::Stdin, false));
    assert_eq!(plan_ip_source(IpSource::Stdin, false, false, false), plan(TextOrigin::Stdin, false));
}

#[test]
fn inline_list_with_url_given_is_still_comma_separated() {
    let plan = plan_ip_source(IpSource::Auto, false, true, true).unwrap();
    let out = collect_ips("1.1.1.1,1.0.0.1", plan.split_on_comma, 4096);
    assert_eq!(out.ips, vec![IpAddress::V4(0x0100_0001), IpAddress::V4(0x0101_0101)]);
}

#[test]
fn stdin_lines_are_not_cut_at_commas() {
    let plan = plan_ip_source(IpSource::Stdin, false, true, false).unwrap();
    let out = collect_ips("1.1.1.1\n1.0.0.1", plan.split_on_comma, 4096);
    assert_eq!(out.ips, vec![IpAddress::V4(0x0100_0001), IpAddress::V4(0x0101_0101)]);
}

#[test]
fn address_set_lists_in_order_once() {
    let mut s = IpSet::new();
    s.insert(IpAddress::V6(3));
    s.insert(IpAddress::V4(9));
    s.insert(IpAddress::V4(2));
    s.insert(IpAddress::V4(9));
    assert_eq!(s.to_sorted_vec(), vec![IpAddress::V4(2), IpAddress::V4(9), IpAddress::V6(3)]);
    assert!(IpSet::new().to_sorted_vec().is_empty());
}
