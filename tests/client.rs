use minihttp::client::{Client, Clients, DEFAULT_LIFETIME};

#[test]
fn new_client_has_default_lifetime() {
    let c = Client::new("s", 4000);
    assert_eq!(c.lifetime, 5_000_000_000);
    assert_eq!(c.lifetime, DEFAULT_LIFETIME);
    assert_eq!(c.port, 4000);
}

#[test]
fn add_get_remove() {
    let mut t: Clients<&str> = Clients::new();
    assert_eq!(t.len(), 0);
    let (k, old) = t.add("a", 5001);
    assert_eq!(k, 5001);
    assert!(old.is_none());
    t.add("b", 5002);
    assert_eq!(t.len(), 2);
    assert_eq!(t.get(5001).map(|c| c.stream), Some("a"));
    assert!(t.get(7).is_none());
    *t.get_mut(5002).unwrap() = "bb";
    assert_eq!(t.get(5002).map(|c| c.stream), Some("bb"));
    assert!(t.get_mut(9).is_none());
    let gone = t.remove(&5001).unwrap();
    assert_eq!(gone.stream, "a");
    assert!(t.remove(&5001).is_none());
    assert_eq!(t.len(), 1);
}

#[test]
fn same_port_replaces_older() {
    let mut t: Clients<&str> = Clients::new();
    t.add("a", 80);
    t.add("b", 81);
    t.sub_duration(1_000);
    let (k, old) = t.add("c", 80);
    assert_eq!(k, 80);
    assert_eq!(old.map(|c| c.stream), Some("a"));
    assert_eq!(t.len(), 2);
    assert_eq!(t.get(80).map(|c| c.lifetime), Some(DEFAULT_LIFETIME));
}

#[test]
fn idle_connections_all_expire() {
    for n in [0u16, 1, 3, 50] {
        let mut t: Clients<u16> = Clients::new();
        for p in 0..n {
            t.add(p, 1000 + p);
        }
        t.sub_duration(5_000_000_000);
        let dead = t.remove_inactive();
        assert_eq!(dead.len(), n as usize);
        assert_eq!(t.len(), 0);
        let order: Vec<u16> = dead.iter().map(|c| c.stream).collect();
        assert_eq!(order, (0..n).collect::<Vec<u16>>());
    }
}

#[test]
fn sweep_keeps_live_ones_in_order() {
    let mut t: Clients<u8> = Clients::new();
    t.add(1, 101);
    t.add(2, 102);
    t.sub_duration(3_000_000_000);
    t.add(3, 103);
    t.sub_duration(2_000_000_000);
    let dead = t.remove_inactive();
    assert_eq!(dead.iter().map(|c| c.stream).collect::<Vec<u8>>(), vec![1, 2]);
    assert_eq!(t.len(), 1);
    assert_eq!(t.get(103).map(|c| c.lifetime), Some(3_000_000_000));
    assert!(t.remove_inactive().is_empty());
}

#[test]
fn lowest_lifetime_is_the_minimum() {
    let mut t: Clients<u8> = Clients::new();
    assert_eq!(t.lowest_lifetime(), None);
    t.add(1, 1);
    t.sub_duration(2_000_000_000);
    t.add(2, 2);
    assert_eq!(t.lowest_lifetime(), Some(3_000_000_000));
    let before = t.lowest_lifetime().unwrap();
    t.sub_duration(500);
    let after = t.lowest_lifetime().unwrap();
    assert!(after <= before);
    assert_eq!(after, 2_999_999_500);
    t.remove(&1);
    assert_eq!(t.lowest_lifetime(), Some(4_999_999_500));
}

#[test]
fn tick_stops_at_zero() {
    let mut t: Clients<u8> = Clients::new();
    t.add(1, 1);
    t.sub_duration(u64::MAX);
    assert_eq!(t.get(1).map(|c| c.lifetime), Some(0));
    t.sub_duration(u64::MAX);
    assert_eq!(t.get(1).map(|c| c.lifetime), Some(0));
    assert_eq!(t.lowest_lifetime(), Some(0));
}

#[test]
fn idle_connections_expire_over_several_ticks() {
    let mut t: Clients<u16> = Clients::new();
    for p in 0..4u16 {
        t.add(p, 2000 + p);
    }
    let before = t.lowest_lifetime().unwrap();
    t.sub_duration(1_500_000_000);
    let mid = t.lowest_lifetime().unwrap();
    assert!(mid <= before);
    assert_eq!(mid, 3_500_000_000);
    t.sub_duration(3_499_999_999);
    assert!(t.remove_inactive().is_empty());
    t.sub_duration(1);
    let dead = t.remove_inactive();
    assert_eq!(dead.iter().map(|c| c.stream).collect::<Vec<u16>>(), vec![0, 1, 2, 3]);
    assert_eq!(t.len(), 0);
    assert_eq!(t.lowest_lifetime(), None);
}
