use cm_tool::lb::{Config, Server, LB};
use cm_tool::load_balancer::LoadBalancer;

fn pool(health: &[bool]) -> Vec<Server> {
    health
        .iter()
        .enumerate()
        .map(|(i, healthy)| {
            let mut server = Server::new(format!("127.0.0.1:{}", 9000 + i));
            server.set_health(*healthy);
            server
        })
        .collect()
}

#[test]
fn new_server_is_healthy() {
    let mut server = Server::new("127.0.0.1:9000".to_string());
    assert_eq!(server.url, "127.0.0.1:9000");
    assert!(server.is_healthy());
    server.set_health(false);
    assert!(!server.is_healthy());
    assert_eq!(server.url, "127.0.0.1:9000");
    let copy = server.duplicate();
    assert_eq!(copy.url, server.url);
    assert!(!copy.is_healthy());
}

#[test]
fn servers_take_turns() {
    let servers = pool(&[true, true, true]);
    let mut lb = LB::new();
    let urls: Vec<String> = (0..5).map(|_| lb.get_next(&servers).unwrap().url).collect();
    assert_eq!(
        urls,
        ["127.0.0.1:9000", "127.0.0.1:9001", "127.0.0.1:9002", "127.0.0.1:9000", "127.0.0.1:9001"]
    );
}

#[test]
fn unhealthy_servers_are_passed_over() {
    let servers = pool(&[false, true, false, true]);
    let mut lb = LB::new();
    assert_eq!(lb.get_next(&servers).unwrap().url, "127.0.0.1:9001");
    assert_eq!(lb.get_next(&servers).unwrap().url, "127.0.0.1:9003");
    assert_eq!(lb.get_next(&servers).unwrap().url, "127.0.0.1:9001");
}

#[test]
fn no_healthy_server_gives_none() {
    let servers = pool(&[false, false]);
    let mut lb = LB::new();
    assert!(lb.get_next(&servers).is_none());
    assert!(lb.get_next(&Vec::new()).is_none());
    // the round took two turns: the next turn is the first server's again
    assert_eq!(lb.take_turn(2), 0);
    assert_eq!(lb.take_turn(2), 1);
    assert_eq!(lb.take_turn(2), 0);
}

#[test]
fn config_holds_its_fields() {
    let config = Config {
        port: "8080".to_string(),
        health_check_interval: "5".to_string(),
        servers: vec!["127.0.0.1:9000".to_string()],
    };
    assert_eq!(config.port, "8080");
    assert_eq!(config.health_check_interval, "5");
    assert_eq!(config.servers.len(), 1);
}

#[test]
fn second_balancer_takes_turns_too() {
    let mut servers = vec![
        cm_tool::load_balancer::Server::new("a:1".to_string()),
        cm_tool::load_balancer::Server::new("b:2".to_string()),
        cm_tool::load_balancer::Server::new("c:3".to_string()),
    ];
    servers[1].set_health(false);
    let mut lb = LoadBalancer::new();
    assert_eq!(lb.get_next_server(&servers).unwrap().url, "a:1");
    assert_eq!(lb.get_next_server(&servers).unwrap().url, "c:3");
    assert_eq!(lb.get_next_server(&servers).unwrap().url, "a:1");
    servers[0].set_health(false);
    servers[2].set_health(false);
    assert!(lb.get_next_server(&servers).is_none());
    assert!(servers[0].duplicate().url == "a:1" && !servers[0].is_healthy());
}
