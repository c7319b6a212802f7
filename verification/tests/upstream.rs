use xtp_rs::net::{IpAddr, Ipv4Addr, SocketAddr};
use xtp_rs::upstream::{
    health_request, is_health_reply, quic_score, EmptySetError, GroupChoice, PickPlan,
    TrafficSample, Upstream, UpstreamSet, DEFAULT_SCORE, PENALTY_SCORE, RECOVERED_SCORE,
};
use xtp_rs::util::now_secs;

fn addr() -> SocketAddr {
    SocketAddr::new(IpAddr::V4(Ipv4Addr { bits: 0x7f00_0001 }), 1080)
}

fn upstream_with(id: &str, groups: &[&str], gain: f64) -> Upstream {
    let groups = groups.iter().map(|g| g.to_string()).collect();
    Upstream::new(id.to_string(), addr(), groups, gain.to_bits())
}

fn make_upstream(id: &str) -> Upstream {
    upstream_with(id, &["default"], 1.0)
}

fn set_tcp_score(up: &mut Upstream, score: u32) {
    up.tcp_score = score;
    up.tcp_score_initialized = true;
}

fn set_quic_uplink(up: &mut Upstream, score: u32) {
    up.quic_uplink_score = score;
    up.quic_uplink_last_update_secs = 1;
}

fn set_quic_downlink(up: &mut Upstream, score: u32) {
    up.quic_downlink_score = score;
    up.quic_downlink_last_update_secs = 1;
}

fn upstream_set(ids: &[&str], tolerance: u32) -> UpstreamSet {
    let items: Vec<_> = ids.iter().map(|id| make_upstream(id)).collect();
    UpstreamSet::new(items, tolerance, 40).unwrap()
}

fn effective(set: &UpstreamSet) -> Vec<u64> {
    set.iter()
        .iter()
        .map(|u| (u.score() as f64 * f64::from_bits(u.gain_bits)).clamp(1.0, 10_000_000.0) as u64)
        .collect()
}

fn stick(set: &mut UpstreamSet, group: &str, id: &str) {
    set.current.push(GroupChoice { group: group.to_string(), id: id.to_string() });
}

fn pick(set: &mut UpstreamSet) -> Option<String> {
    let eff = effective(set);
    set.pick(&eff).map(|i| set.items[i].id.clone())
}

fn pick_group(set: &mut UpstreamSet, group: &str) -> Option<String> {
    let eff = effective(set);
    set.pick_from_group(group, &eff).map(|i| set.items[i].id.clone())
}

fn pick_excluding(set: &mut UpstreamSet, excluded: &[&str]) -> Option<String> {
    let eff = effective(set);
    let excluded: Vec<String> = excluded.iter().map(|s| s.to_string()).collect();
    set.pick_excluding_many_from_group("default", &excluded, &eff)
        .map(|i| set.items[i].id.clone())
}

#[test]
fn score_none_on_low_bytes() {
    assert!(!TrafficSample { bytes: 1000, secs: 2 }.is_measurable());
    assert!(!TrafficSample { bytes: 16 * 1024 - 1, secs: 2 }.is_measurable());
    assert!(TrafficSample { bytes: 16 * 1024, secs: 2 }.is_measurable());
}

#[test]
fn score_none_on_zero_duration() {
    assert!(!TrafficSample { bytes: 100_000, secs: 0 }.is_measurable());
    assert!(TrafficSample { bytes: 100_000, secs: 1 }.is_measurable());
}

#[test]
fn quic_score_perfect() {
    assert_eq!(quic_score(0, 10, 1450), 1000);
}

#[test]
fn quic_score_high_loss_penalty() {
    let score = quic_score(15, 50, 1450);
    assert!(score < 500, "high loss should reduce score significantly");
    assert_eq!(score, 250);
}

#[test]
fn quic_score_low_mtu_penalty() {
    let score = quic_score(0, 10, 800);
    assert!(score < 600);
    assert_eq!(score, 550);
}

#[test]
fn quic_score_minimum_50() {
    assert_eq!(quic_score(50, 999, 500), 50);
}

#[test]
fn quic_score_takes_each_penalty() {
    assert_eq!(quic_score(2, 81, 1399), 1000 - 60 - 40 - 60);
    assert_eq!(quic_score(5, 150, 1299), 1000 - 200 - 40 - 120);
    assert_eq!(quic_score(6, 250, 1400), 1000 - 500 - 100);
    assert_eq!(quic_score(0, 400, 1200), 1000 - 180 - 250);
    assert_eq!(quic_score(0, 401, 1300), 1000 - 300 - 60);
    assert_eq!(quic_score(21, 0, 1400), 100);
}

#[test]
fn score_initial() {
    assert_eq!(make_upstream("a").score(), DEFAULT_SCORE);
}

#[test]
fn score_uses_downlink_when_uplink_missing() {
    let mut up = make_upstream("c");
    set_tcp_score(&mut up, 600);
    set_quic_downlink(&mut up, 700);
    let expected = (600 * 60 + 700 * 40) / 100;
    assert_eq!(up.score(), expected);
}

#[test]
fn score_averages_both_links() {
    let mut up = make_upstream("d");
    set_tcp_score(&mut up, 600);
    set_quic_uplink(&mut up, 800);
    set_quic_downlink(&mut up, 600);
    let expected = (600 * 60 + 700 * 40) / 100;
    assert_eq!(up.score(), expected);
}

#[test]
fn penalize_sets_all_to_100() {
    let mut up = make_upstream("e");
    up.penalize();
    assert_eq!(up.tcp_score, 100);
    assert!(up.tcp_score_initialized);
    assert_eq!(up.quic_uplink_score, 100);
    assert_eq!(up.quic_downlink_score, 100);
    assert!(up.quic_uplink_last_update_secs + 5 >= now_secs());
    assert_eq!(up.score(), PENALTY_SCORE);
}

#[test]
fn single_upstream_always_picked() {
    let mut set = upstream_set(&["a"], 0);
    assert_eq!(pick(&mut set).unwrap(), "a");
}

#[test]
fn pick_excluding_many_single_returns_none() {
    let mut set = upstream_set(&["a"], 0);
    assert!(pick_excluding(&mut set, &["a"]).is_none());
}

#[test]
fn pick_excluding_many_removes_matching() {
    let mut set = upstream_set(&["a", "b"], 0);
    assert_eq!(pick_excluding(&mut set, &["a"]).unwrap(), "b");
}

#[test]
fn pick_excluding_many_excludes_all() {
    let mut set = upstream_set(&["a", "b", "c"], 0);
    assert!(pick_excluding(&mut set, &["a", "b", "c"]).is_none());
}

#[test]
fn tolerance_sticky_when_best_not_exceeding() {
    let mut set = upstream_set(&["a", "b"], 50);
    for u in set.items.iter_mut() {
        set_tcp_score(u, 500);
        set_quic_uplink(u, 500);
    }
    stick(&mut set, "default", "a");
    assert_eq!(pick(&mut set).unwrap(), "a", "should stick because scores equal");
}

#[test]
fn tolerance_switches_when_best_exceeds() {
    fastrand::seed(42);
    let mut set = upstream_set(&["a", "b"], 100);
    stick(&mut set, "default", "a");
    for u in set.items.iter_mut() {
        set_tcp_score(u, 500);
        set_quic_uplink(u, 500);
    }
    let b = set.find_by_id("b").unwrap();
    set_quic_uplink(&mut set.items[b], 850);
    assert_eq!(set.items[b].score(), 640);
    assert_eq!(pick(&mut set).unwrap(), "b");
}

#[test]
fn score_blends_tcp_and_quic() {
    let mut up = make_upstream("b");
    set_tcp_score(&mut up, 600);
    set_quic_uplink(&mut up, 800);
    let expected = (600 * 60 + 800 * 40) / 100;
    assert_eq!(up.score(), expected);
}

#[test]
fn score_respects_custom_quic_weight() {
    let mut up = make_upstream("f");
    up.set_quic_weight(50);
    set_tcp_score(&mut up, 600);
    set_quic_uplink(&mut up, 800);
    let expected = (600 * 50 + 800 * 50) / 100;
    assert_eq!(up.score(), expected);
}

#[test]
fn pick_from_group_nonexistent_returns_none() {
    let mut set = upstream_set(&["a", "b"], 0);
    assert!(pick_group(&mut set, "nonexistent").is_none());
}

fn office_set() -> UpstreamSet {
    let items = vec![
        upstream_with("a", &["default", "office"], 1.0),
        upstream_with("b", &["default"], 1.0),
        upstream_with("c", &["office"], 1.0),
        upstream_with("d", &["office"], 1.0),
    ];
    UpstreamSet::new(items, 50, 40).unwrap()
}

#[test]
fn pick_from_group_sticky_isolated() {
    let mut set = office_set();
    stick(&mut set, "default", "a");
    stick(&mut set, "office", "c");
    assert_eq!(pick_group(&mut set, "default").unwrap(), "a");
    assert_eq!(pick_group(&mut set, "office").unwrap(), "c");
}

#[test]
fn gain_affects_weighted_selection() {
    fastrand::seed(42);
    let mut items = vec![
        upstream_with("high", &["default"], 2.0),
        upstream_with("low", &["default"], 0.5),
    ];
    for u in items.iter_mut() {
        set_tcp_score(u, 500);
    }
    let mut set = UpstreamSet::new(items, 0, 40).unwrap();
    let mut high_count = 0u32;
    let mut low_count = 0u32;
    for _ in 0..1000 {
        if pick(&mut set).unwrap() == "high" {
            high_count += 1;
        } else {
            low_count += 1;
        }
    }
    assert!(
        high_count > low_count * 5,
        "high gain should be picked much more often: high={}, low={}",
        high_count,
        low_count
    );
    assert!(low_count > 0);
}

#[test]
fn gain_affects_tolerance_comparison() {
    fastrand::seed(42);
    let mut items = vec![
        upstream_with("a", &["default"], 1.0),
        upstream_with("b", &["default"], 3.0),
    ];
    for u in items.iter_mut() {
        set_tcp_score(u, 500);
        set_quic_uplink(u, 500);
    }
    let mut set = UpstreamSet::new(items, 50, 40).unwrap();
    stick(&mut set, "default", "a");
    assert_eq!(pick(&mut set).unwrap(), "b", "should switch due to higher gain");
}

#[test]
fn an_empty_set_is_refused() {
    assert!(matches!(UpstreamSet::new(vec![], 0, 40), Err(EmptySetError)));
}

#[test]
fn plans_say_whether_to_draw() {
    let mut set = office_set();
    let eff = [10u64, 60, 100, 1];
    let office = set.group_members("office");
    assert_eq!(office, vec![0, 2, 3]);
    assert_eq!(set.plan(&[], "office", &eff), PickPlan::Nobody);
    assert_eq!(set.plan(&office, "office", &eff), PickPlan::Draw(100 + 10_000 + 1));
    stick(&mut set, "office", "a");
    assert_eq!(set.plan(&office, "office", &eff), PickPlan::Draw(10_101));
    assert_eq!(set.plan(&[0, 1], "office", &eff), PickPlan::Keep(0));
    assert_eq!(set.plan(&[1, 3], "office", &eff), PickPlan::Draw(3601));
}

#[test]
fn draws_fall_by_squared_scores() {
    let set = office_set();
    let eff = [2u64, 1, 3, 1];
    let cand = [0usize, 1, 2];
    let drawn: Vec<usize> = (0..14).map(|x| set.draw(&cand, &eff, x)).collect();
    assert_eq!(drawn, vec![0, 0, 0, 0, 1, 2, 2, 2, 2, 2, 2, 2, 2, 2]);
}

#[test]
fn a_settled_choice_is_remembered() {
    let mut set = office_set();
    let eff = [2u64, 1, 3, 1];
    assert_eq!(set.settle(&[0, 2, 3], "office", &eff, 4), 2);
    assert_eq!(set.plan(&[0, 2, 3], "office", &eff), PickPlan::Keep(2));
    assert_eq!(set.current.len(), 1);
    assert_eq!(set.settle(&[0, 2, 3], "office", &eff, 0), 0);
    assert_eq!(set.current.len(), 1);
    assert_eq!(set.current[0].id, "a");
}

#[test]
fn links_rest_between_two_scores() {
    let mut up = make_upstream("u");
    up.update_uplink_score_at(Some(1000), 100);
    assert_eq!(up.quic_uplink_score, (DEFAULT_SCORE * 3 + 1000 * 7) / 10);
    assert_eq!(up.quic_uplink_last_update_secs, 100);
    up.update_uplink_score_at(Some(0), 104);
    assert_eq!(up.quic_uplink_score, 745);
    up.update_uplink_score_at(None, 105);
    assert_eq!(up.quic_uplink_last_update_secs, 100);
    up.update_uplink_score_at(Some(5000), 105);
    assert_eq!(up.quic_uplink_score, (745 * 3 + 1000 * 7) / 10);
    up.update_downlink_score_at(Some(0), 105);
    assert_eq!(up.quic_downlink_score, 45);
    up.update_downlink_score(Some(300));
    up.update_uplink_score(Some(300));
    assert_eq!(up.quic_uplink_score, (923 * 3 + 300 * 7) / 10);
    assert_eq!(up.quic_downlink_score, (45 * 3 + 300 * 7) / 10);
}

#[test]
fn reports_reach_the_server_they_name() {
    let mut set = office_set();
    set.apply_report(false, "c", Some("downlink"), Some(1000), 50);
    assert_eq!(set.items[2].quic_downlink_score, 745);
    assert_eq!(set.items[2].quic_uplink_last_update_secs, 0);
    set.apply_report(false, "c", None, Some(1000), 50);
    assert_eq!(set.items[2].quic_uplink_score, 745);
    set.apply_report(true, "a", None, Some(1000), 50);
    assert_eq!(set.items[0].quic_uplink_last_update_secs, 0);
    set.apply_report(false, "nobody", None, Some(1000), 50);
    assert_eq!(set.items[1].quic_uplink_last_update_secs, 0);
}

#[test]
fn traffic_between_two_looks_is_measured() {
    let mut up = make_upstream("u");
    assert_eq!(up.observe_traffic(100, 50, 10), None);
    assert_eq!(up.observe_traffic(300, 60, 12), Some(TrafficSample { bytes: 210, secs: 2 }));
    assert_eq!(up.observe_traffic(10, 61, 12), Some(TrafficSample { bytes: 1, secs: 1 }));
    up.apply_throughput(901);
    assert_eq!(up.tcp_score, (DEFAULT_SCORE + 901) / 2);
    assert_eq!(up.score(), 525);
}

#[test]
fn checks_put_down_and_restore_a_server() {
    let mut up = make_upstream("u");
    set_tcp_score(&mut up, 800);
    up.note_health(false, 2, 7);
    assert_eq!(up.tcp_score, 800);
    up.note_health(false, 2, 8);
    assert_eq!(up.tcp_score, PENALTY_SCORE);
    assert_eq!(up.quic_uplink_last_update_secs, 8);
    up.note_health(true, 2, 9);
    assert_eq!(up.tcp_score, RECOVERED_SCORE);
    assert_eq!(up.health_failures, 0);
    set_tcp_score(&mut up, 800);
    up.note_health(false, 2, 10);
    up.note_health(true, 2, 11);
    assert_eq!(up.tcp_score, 800);
}

#[test]
fn health_is_asked_over_http() {
    assert_eq!(
        health_request("cp.example.com"),
        "HEAD / HTTP/1.1\r\nHost: cp.example.com\r\nConnection: close\r\n\r\n"
    );
    assert!(is_health_reply(b"HTTP/1.1 204 No Content"));
    assert!(!is_health_reply(b"SSH-2.0"));
    assert!(!is_health_reply(b""));
}

#[test]
fn groups_have_few_servers() {
    assert!(office_set().has_small_groups());
}
