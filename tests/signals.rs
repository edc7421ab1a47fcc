use speedy_kv::fastfield::Value;
use speedy_kv::signals::{host_id, FetchTimeMs, InboundSimilarity, QueryCentrality, UpdateTimestamp, UrlDigits, UrlSlashes};
use speedy_kv::webgraph::{Granularity, RemoteWebgraph, Service};

#[test]
fn value_accessors() {
    let v = Value::U64(7);
    assert_eq!(v.as_u64(), Some(7));
    assert_eq!(v.as_bytes(), None);
    let b = Value::Bytes(vec![1, 2]);
    assert_eq!(b.as_u64(), None);
    assert_eq!(b.as_bytes(), Some(&[1u8, 2][..]));
}

#[test]
fn url_digit_and_slash_counts() {
    assert_eq!(UrlDigits::num_digits(b"/a1/b22", b"x=3"), 4);
    assert_eq!(UrlDigits::num_digits(b"/", b""), 0);
    assert_eq!(UrlSlashes::num_slashes(b"/a/b/c"), 3);
    assert_eq!(UrlSlashes::num_slashes(b""), 0);
}

#[test]
fn fetch_time_slot() {
    assert_eq!(FetchTimeMs::cache_slot(5, 10), Some(5));
    assert_eq!(FetchTimeMs::cache_slot(10, 10), None);
}

#[test]
fn update_hours() {
    assert_eq!(UpdateTimestamp::hours_since_update(0, Some(7200)), Some(2));
    assert_eq!(UpdateTimestamp::hours_since_update(100, Some(100)), None);
    assert_eq!(UpdateTimestamp::hours_since_update(100, None), None);
    assert_eq!(UpdateTimestamp::hours_since_update(3599, Some(3600)), Some(0));
}

#[test]
fn host_ids() {
    assert_eq!(host_id(u64::MAX), None);
    assert_eq!(host_id(42), Some(42));
    assert_eq!(QueryCentrality::host(3), Some(3));
    assert_eq!(InboundSimilarity::host(u64::MAX), None);
}

#[test]
fn webgraph_picks_members_of_its_granularity() {
    let g = RemoteWebgraph::new(Granularity::Page);
    assert_eq!(g.granularity(), Granularity::Page);
    let members = vec![
        Service::Webgraph { shard: 1, granularity: Granularity::Host },
        Service::Other,
        Service::Webgraph { shard: 2, granularity: Granularity::Page },
        Service::Webgraph { shard: 1, granularity: Granularity::Page },
    ];
    assert_eq!(g.shard_members(&members), vec![(2, 2), (1, 3)]);
}

#[test]
fn webgraph_groups_members_by_shard() {
    let g = RemoteWebgraph::new(Granularity::Host);
    let members = vec![
        Service::Webgraph { shard: 7, granularity: Granularity::Host },
        Service::Webgraph { shard: 3, granularity: Granularity::Host },
        Service::Other,
        Service::Webgraph { shard: 7, granularity: Granularity::Page },
        Service::Webgraph { shard: 7, granularity: Granularity::Host },
    ];
    assert_eq!(g.shard_groups(&members), vec![(7, vec![0, 4]), (3, vec![1])]);
    assert!(g.shard_groups(&vec![Service::Other]).is_empty());
}
