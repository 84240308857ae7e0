use tcp_proxy::config::{App, ConfigError};

fn app(ports: Vec<u16>, targets: Vec<&str>) -> App {
    App { name: "web".to_string(), ports, targets: targets.into_iter().map(String::from).collect() }
}

#[test]
fn valid_app_is_accepted() {
    let a = app(vec![9001, 9002], vec!["127.0.0.1:9101", "127.0.0.1:9102"]);
    assert_eq!(a.validate(), Ok(()));
}

#[test]
fn app_without_ports_is_rejected() {
    assert_eq!(app(vec![], vec!["127.0.0.1:9101"]).validate(), Err(ConfigError::NoPorts));
}

#[test]
fn app_with_repeated_port_is_rejected() {
    assert_eq!(app(vec![9001, 9002, 9001], vec!["127.0.0.1:9101"]).validate(), Err(ConfigError::DuplicatePort));
}

#[test]
fn app_without_targets_is_rejected() {
    assert_eq!(app(vec![9001], vec![]).validate(), Err(ConfigError::NoTargets));
}
