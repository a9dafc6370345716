use mc_router::addr::SocketAddress;
use mc_router::error::ErrorKind;
use mc_router::manager::{Manager, Removal, Routing};
use mc_router::prot::Host;
use mc_router::proxy::{ConnInfo, Listener};

fn addr(text: &str) -> SocketAddress {
    SocketAddress::new(text)
}

fn conn(peer: &str, target: &str, handler: u64) -> ConnInfo {
    ConnInfo { peer: addr(peer), target: addr(target), handler }
}

fn listed(manager: &Manager) -> Vec<(String, String)> {
    manager.list_connections().into_iter().map(|(peer, domain)| (peer.0, domain)).collect()
}

fn pair(peer: &str, domain: &str) -> (String, String) {
    (peer.to_string(), domain.to_string())
}

const PLAY: [u8; 20] = [
    0x13, 0x00, 0xf7, 0x05, 0x0c, 0x70, 0x6c, 0x61, 0x79, 0x2e, 0x65, 0x78, 0x61, 0x6d, 0x70, 0x6c,
    0x65, 0x63, 0xdd, 0x01,
];

#[test]
fn new_manager_is_empty() {
    let manager = Manager::new();
    assert!(manager.list_mappings().is_empty());
    assert!(manager.get_listeners().is_empty());
    assert!(manager.list_connections().is_empty());
    assert!(!manager.cleaner_running());
    assert_eq!(manager.get_mapping("a"), None);
}

#[test]
fn address_is_its_text() {
    let a = addr("[::1]:25565");
    assert_eq!(a.as_str(), "[::1]:25565");
    assert_eq!(a.clone(), a);
    assert_ne!(a, addr("127.0.0.1:25565"));
}

#[test]
fn set_mapping_returns_what_it_replaced() {
    let mut manager = Manager::new();
    assert_eq!(manager.set_mapping("a".to_string(), addr("10.0.0.1:25565")), None);
    assert_eq!(
        manager.set_mapping("a".to_string(), addr("10.0.0.2:25565")),
        Some(addr("10.0.0.1:25565"))
    );
    assert_eq!(manager.get_mapping("a"), Some(addr("10.0.0.2:25565")));
    assert_eq!(manager.get_socket_addr(&"a".to_string()), Some(addr("10.0.0.2:25565")));
    assert_eq!(manager.get_mapping("b"), None);
    assert_eq!(manager.get_mapping("A"), None);
}

#[test]
fn mappings_are_listed_in_the_order_they_came() {
    let mut manager = Manager::new();
    manager.set_mapping("b".to_string(), addr("10.0.0.2:1"));
    manager.set_mapping("a".to_string(), addr("10.0.0.1:1"));
    manager.set_mapping("c".to_string(), addr("10.0.0.3:1"));
    manager.set_mapping("a".to_string(), addr("10.0.0.4:1"));
    assert_eq!(
        manager.list_mappings(),
        vec![
            ("b".to_string(), addr("10.0.0.2:1")),
            ("a".to_string(), addr("10.0.0.4:1")),
            ("c".to_string(), addr("10.0.0.3:1")),
        ]
    );
    manager.del_mapping("b", false);
    assert_eq!(
        manager.list_mappings(),
        vec![("a".to_string(), addr("10.0.0.4:1")), ("c".to_string(), addr("10.0.0.3:1"))]
    );
}

#[test]
fn a_set_is_seen_by_the_next_get() {
    let mut manager = Manager::new();
    for round in 0..20u32 {
        let domain = format!("d{}", round % 5);
        let target = format!("10.0.0.{}:25565", round);
        manager.set_mapping(domain.clone(), addr(&target));
        assert_eq!(manager.get_mapping(&domain), Some(addr(&target)));
        if round % 3 == 0 {
            manager.del_mapping(&domain, false);
            assert_eq!(manager.get_mapping(&domain), None);
        }
    }
    assert_eq!(manager.list_mappings().len(), 3);
}

#[test]
fn listener_is_replaced_not_doubled() {
    let mut manager = Manager::new();
    assert_eq!(manager.register_listener(addr("0.0.0.0:25565"), Listener(1)), None);
    assert_eq!(manager.register_listener(addr("0.0.0.0:25565"), Listener(2)), Some(Listener(1)));
    assert_eq!(manager.get_listeners(), vec![addr("0.0.0.0:25565")]);
    assert_eq!(manager.register_listener(addr("0.0.0.0:25566"), Listener(3)), None);
    assert_eq!(manager.get_listeners(), vec![addr("0.0.0.0:25565"), addr("0.0.0.0:25566")]);
}

#[test]
fn listener_is_removed_once() {
    let mut manager = Manager::new();
    manager.register_listener(addr("0.0.0.0:25565"), Listener(7));
    assert_eq!(manager.kill_delete_listener(&addr("0.0.0.0:25566")), None);
    assert_eq!(manager.kill_delete_listener(&addr("0.0.0.0:25565")), Some(Listener(7)));
    assert_eq!(manager.kill_delete_listener(&addr("0.0.0.0:25565")), None);
    assert!(manager.get_listeners().is_empty());
}

#[test]
fn listeners_stay_unique_under_any_order() {
    let mut manager = Manager::new();
    let mut task = 0;
    for round in 0..40u32 {
        let a = addr(&format!("0.0.0.0:{}", 25565 + round % 4));
        if round % 7 == 3 {
            manager.kill_delete_listener(&a);
        } else {
            task += 1;
            manager.register_listener(a, Listener(task));
        }
        let mut seen: Vec<String> = manager.get_listeners().into_iter().map(|a| a.0).collect();
        let count = seen.len();
        seen.sort();
        seen.dedup();
        assert_eq!(seen.len(), count);
    }
}

#[test]
fn client_with_a_mapping_is_dialled() {
    let mut manager = Manager::new();
    manager.set_mapping("play.example".to_string(), addr("127.0.0.1:25566"));
    assert_eq!(
        manager.route_client(&PLAY, false),
        Routing::Dial(Host { domain: "play.example".to_string(), port: 25565 }, addr("127.0.0.1:25566"))
    );
    let mut more = PLAY.to_vec();
    more.extend([1, 2, 3]);
    assert_eq!(
        manager.route_client(&more, true),
        Routing::Dial(Host { domain: "play.example".to_string(), port: 25565 }, addr("127.0.0.1:25566"))
    );
}

#[test]
fn client_for_an_unknown_host_is_not_dialled() {
    let mut manager = Manager::new();
    manager.set_mapping("other.example".to_string(), addr("127.0.0.1:25566"));
    assert_eq!(
        manager.route_client(&PLAY, false),
        Routing::Unknown(Host { domain: "play.example".to_string(), port: 25565 })
    );
    assert!(manager.list_connections().is_empty());
}

#[test]
fn client_with_a_bad_handshake_is_rejected() {
    let manager = Manager::new();
    assert_eq!(manager.route_client(&PLAY[..7], false), Routing::Wait(20));
    assert_eq!(manager.route_client(&PLAY[..7], true), Routing::Reject(ErrorKind::UnexpectedEof));
    assert_eq!(
        manager.route_client(&[0x80, 0x80, 0x80, 0x80, 0x80], false),
        Routing::Reject(ErrorKind::InvalidData)
    );
}

#[test]
fn mapping_change_leaves_connections_alone() {
    let mut manager = Manager::new();
    manager.set_mapping("a".to_string(), addr("10.0.0.1:25565"));
    manager.register_client("a".to_string(), conn("1.1.1.1:1000", "10.0.0.1:25565", 1));
    manager.set_mapping("a".to_string(), addr("10.0.0.2:25565"));
    assert_eq!(listed(&manager), vec![pair("1.1.1.1:1000", "a")]);
}

#[test]
fn connections_are_listed_by_domain() {
    let mut manager = Manager::new();
    manager.register_client("a".to_string(), conn("1.1.1.1:1", "10.0.0.1:1", 1));
    manager.register_client("b".to_string(), conn("2.2.2.2:2", "10.0.0.2:1", 2));
    manager.register_client("a".to_string(), conn("3.3.3.3:3", "10.0.0.1:1", 3));
    assert_eq!(
        listed(&manager),
        vec![pair("1.1.1.1:1", "a"), pair("3.3.3.3:3", "a"), pair("2.2.2.2:2", "b")]
    );
}

#[test]
fn released_connection_is_no_longer_listed() {
    let mut manager = Manager::new();
    manager.register_client("a".to_string(), conn("1.1.1.1:1", "10.0.0.1:1", 1));
    manager.register_client("a".to_string(), conn("2.2.2.2:2", "10.0.0.1:1", 2));
    manager.release_client(1);
    assert_eq!(listed(&manager), vec![pair("2.2.2.2:2", "a")]);
    manager.release_client(9);
    assert_eq!(listed(&manager), vec![pair("2.2.2.2:2", "a")]);
}

#[test]
fn forced_removal_names_every_running_task() {
    let mut manager = Manager::new();
    manager.set_mapping("x".to_string(), addr("10.0.0.1:25565"));
    manager.register_client("x".to_string(), conn("1.1.1.1:1", "10.0.0.1:25565", 11));
    manager.register_client("x".to_string(), conn("2.2.2.2:2", "10.0.0.1:25565", 12));
    manager.register_client("y".to_string(), conn("4.4.4.4:4", "10.0.0.9:25565", 14));
    manager.register_client("x".to_string(), conn("3.3.3.3:3", "10.0.0.1:25565", 13));
    assert_eq!(manager.del_mapping("x", true), Removal { count: 4, aborted: vec![11, 12, 13] });
    assert_eq!(listed(&manager), vec![pair("4.4.4.4:4", "y")]);
    assert_eq!(manager.get_mapping("x"), None);
    assert_eq!(manager.del_mapping("x", true), Removal { count: 0, aborted: vec![] });
}

#[test]
fn forced_removal_skips_what_has_ended() {
    let mut manager = Manager::new();
    manager.set_mapping("x".to_string(), addr("10.0.0.1:25565"));
    manager.register_client("x".to_string(), conn("1.1.1.1:1", "10.0.0.1:25565", 11));
    manager.register_client("x".to_string(), conn("2.2.2.2:2", "10.0.0.1:25565", 12));
    manager.release_client(11);
    assert_eq!(manager.del_mapping("x", true), Removal { count: 2, aborted: vec![12] });
}

#[test]
fn removal_counts_one_for_the_mapping_alone() {
    let mut manager = Manager::new();
    manager.set_mapping("x".to_string(), addr("10.0.0.1:25565"));
    assert_eq!(manager.del_mapping("x", true), Removal { count: 1, aborted: vec![] });
    manager.set_mapping("x".to_string(), addr("10.0.0.1:25565"));
    assert_eq!(manager.del_mapping("x", false), Removal { count: 1, aborted: vec![] });
    assert_eq!(manager.del_mapping("x", false), Removal { count: 0, aborted: vec![] });
}

#[test]
fn forced_removal_counts_connections_without_a_mapping() {
    let mut manager = Manager::new();
    manager.register_client("x".to_string(), conn("1.1.1.1:1", "10.0.0.1:25565", 11));
    assert_eq!(manager.del_mapping("x", true), Removal { count: 2, aborted: vec![11] });
    manager.register_client("x".to_string(), conn("1.1.1.1:1", "10.0.0.1:25565", 12));
    assert_eq!(manager.del_mapping("x", false), Removal { count: 0, aborted: vec![] });
    assert_eq!(listed(&manager), vec![pair("1.1.1.1:1", "x")]);
}

#[test]
fn gentle_removal_moves_connections_to_grace() {
    let mut manager = Manager::new();
    manager.set_mapping("x".to_string(), addr("10.0.0.1:25565"));
    manager.register_client("x".to_string(), conn("1.1.1.1:1", "10.0.0.1:25565", 11));
    manager.register_client("x".to_string(), conn("2.2.2.2:2", "10.0.0.1:25565", 12));
    manager.release_client(11);
    assert_eq!(manager.del_mapping("x", false), Removal { count: 1, aborted: vec![] });
    assert_eq!(listed(&manager), vec![pair("2.2.2.2:2", "x")]);
    manager.set_mapping("x".to_string(), addr("10.0.0.2:25565"));
    manager.register_client("x".to_string(), conn("3.3.3.3:3", "10.0.0.2:25565", 13));
    assert_eq!(listed(&manager), vec![pair("3.3.3.3:3", "x"), pair("2.2.2.2:2", "x")]);
    assert_eq!(manager.del_mapping("x", true), Removal { count: 2, aborted: vec![13] });
    assert_eq!(listed(&manager), vec![pair("2.2.2.2:2", "x")]);
    manager.release_client(12);
    assert!(listed(&manager).is_empty());
}

#[test]
fn gentle_removal_appends_to_grace() {
    let mut manager = Manager::new();
    manager.set_mapping("x".to_string(), addr("10.0.0.1:1"));
    manager.register_client("x".to_string(), conn("1.1.1.1:1", "10.0.0.1:1", 1));
    manager.del_mapping("x", false);
    manager.set_mapping("x".to_string(), addr("10.0.0.1:1"));
    manager.register_client("x".to_string(), conn("2.2.2.2:2", "10.0.0.1:1", 2));
    manager.del_mapping("x", false);
    assert_eq!(listed(&manager), vec![pair("1.1.1.1:1", "x"), pair("2.2.2.2:2", "x")]);
}

#[test]
fn sweep_takes_the_count_and_cleans() {
    let mut manager = Manager::new();
    assert_eq!(manager.sweep(), 0);
    manager.new_client();
    manager.new_client();
    manager.register_client("a".to_string(), conn("1.1.1.1:1", "10.0.0.1:1", 1));
    manager.register_client("a".to_string(), conn("2.2.2.2:2", "10.0.0.1:1", 2));
    manager.release_client(1);
    assert_eq!(manager.sweep(), 2);
    assert_eq!(listed(&manager), vec![pair("2.2.2.2:2", "a")]);
    assert_eq!(manager.sweep(), 0);
    manager.new_client();
    assert_eq!(manager.sweep(), 1);
}

#[test]
fn cleaning_keeps_what_runs() {
    let mut manager = Manager::new();
    manager.set_mapping("g".to_string(), addr("10.0.0.1:1"));
    for handler in 0..6u64 {
        let domain = if handler < 3 { "g" } else { "c" };
        manager.register_client(domain.to_string(), conn(&format!("1.1.1.1:{}", handler), "10.0.0.1:1", handler));
    }
    manager.del_mapping("g", false);
    manager.release_client(1);
    manager.release_client(4);
    let before = listed(&manager);
    manager.clean_cache();
    assert_eq!(listed(&manager), before);
    assert_eq!(
        before,
        vec![pair("1.1.1.1:3", "c"), pair("1.1.1.1:5", "c"), pair("1.1.1.1:0", "g"), pair("1.1.1.1:2", "g")]
    );
    assert_eq!(manager.del_mapping("c", true), Removal { count: 3, aborted: vec![3, 5] });
}

#[test]
fn cleaner_is_started_once() {
    let mut manager = Manager::new();
    assert!(!manager.cleaner_running());
    manager.start_cleaner();
    assert!(manager.cleaner_running());
}

#[test]
fn cleaning_leaves_nothing_stale() {
    let mut manager = Manager::new();
    assert!(!manager.has_stale());
    manager.set_mapping("g".to_string(), addr("10.0.0.1:1"));
    manager.register_client("g".to_string(), conn("1.1.1.1:1", "10.0.0.1:1", 1));
    manager.register_client("g".to_string(), conn("1.1.1.1:2", "10.0.0.1:1", 2));
    manager.del_mapping("g", false);
    manager.register_client("c".to_string(), conn("1.1.1.1:3", "10.0.0.1:1", 3));
    assert!(!manager.has_stale());
    manager.release_client(2);
    assert!(manager.has_stale());
    manager.clean_cache();
    assert!(!manager.has_stale());
    manager.release_client(3);
    assert!(manager.has_stale());
    assert_eq!(manager.sweep(), 0);
    assert!(manager.has_stale());
    manager.new_client();
    assert_eq!(manager.sweep(), 1);
    assert!(!manager.has_stale());
    assert_eq!(listed(&manager), vec![pair("1.1.1.1:1", "g")]);
}

#[test]
fn running_connection_is_listed_once() {
    let mut manager = Manager::new();
    manager.set_mapping("x".to_string(), addr("10.0.0.1:1"));
    manager.register_client("x".to_string(), conn("1.1.1.1:1", "10.0.0.1:1", 1));
    for round in 0..4 {
        manager.del_mapping("x", false);
        manager.set_mapping("x".to_string(), addr("10.0.0.1:1"));
        manager.register_client("x".to_string(), conn("2.2.2.2:2", "10.0.0.1:1", 10 + round));
        manager.clean_cache();
        let all = listed(&manager);
        assert_eq!(all.iter().filter(|p| p.0 == "1.1.1.1:1").count(), 1);
        assert_eq!(all.len(), 2 + round as usize);
    }
}
