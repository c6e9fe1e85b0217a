use nanocld::config::{gen_daemon_conf, Cli, ConfigError, DaemonConfigFile};

fn empty_args() -> Cli {
    Cli {
        gid: 0,
        hosts: None,
        state_dir: None,
        docker_host: None,
        conf_dir: String::from("/etc/nanocl"),
        init: false,
        gateway: None,
        hostname: None,
        advertise_addr: None,
        nodes: Vec::default(),
    }
}

fn empty_file() -> DaemonConfigFile {
    DaemonConfigFile { hosts: None, state_dir: None, docker_host: None, gateway: None, hostname: None }
}

#[test]
fn merge_config() {
    let args = Cli {
        gid: 0,
        hosts: Some(vec![String::from("unix:///run/nanocl/nanocl.sock")]),
        state_dir: Some(String::from("/var/lib/nanocl")),
        docker_host: Some(String::from("/run/docker.sock")),
        conf_dir: String::from("/etc/nanocl"),
        init: false,
        gateway: None,
        hostname: None,
        advertise_addr: None,
        nodes: Vec::default(),
    };
    let config = DaemonConfigFile {
        hosts: Some(vec![String::from("unix:///run/nanocl/nanocl.sock")]),
        state_dir: Some(String::from("/var/lib/nanocl")),
        docker_host: Some(String::from("/run/docker.sock")),
        gateway: None,
        hostname: None,
    };
    let merged =
        gen_daemon_conf(&args, &config, Some(String::from("10.0.0.1")), Some(String::from("node1"))).unwrap();
    assert_eq!(merged.hosts, args.hosts.unwrap());
    assert_eq!(merged.state_dir, args.state_dir.unwrap());
    assert_eq!(merged.docker_host, args.docker_host.unwrap());
}

#[test]
fn defaults_apply_when_nothing_is_set() {
    let merged = gen_daemon_conf(&empty_args(), &empty_file(), Some(String::from("10.0.0.1")), Some(String::from("node1")))
        .unwrap();
    assert_eq!(merged.hosts, vec![String::from("unix:///run/nanocl/nanocl.sock")]);
    assert_eq!(merged.state_dir, "/var/lib/nanocl");
    assert_eq!(merged.docker_host, "/run/docker.sock");
    assert_eq!(merged.gateway, "10.0.0.1");
    assert_eq!(merged.hostname, "node1");
    assert_eq!(merged.advertise_addr, "10.0.0.1");
    assert_eq!(merged.conf_dir, "/etc/nanocl");
}

#[test]
fn arguments_win_over_file() {
    let mut args = empty_args();
    args.state_dir = Some(String::from("/srv/a"));
    args.gateway = Some(String::from("192.168.1.1"));
    args.advertise_addr = Some(String::from("1.2.3.4"));
    args.gid = 7;
    let mut file = empty_file();
    file.state_dir = Some(String::from("/srv/b"));
    file.docker_host = Some(String::from("/tmp/docker.sock"));
    file.gateway = Some(String::from("172.17.0.1"));
    file.hostname = Some(String::from("from-file"));
    let merged = gen_daemon_conf(&args, &file, None, None).unwrap();
    assert_eq!(merged.state_dir, "/srv/a");
    assert_eq!(merged.docker_host, "/tmp/docker.sock");
    assert_eq!(merged.gateway, "192.168.1.1");
    assert_eq!(merged.hostname, "from-file");
    assert_eq!(merged.advertise_addr, "1.2.3.4");
    assert_eq!(merged.gid, 7);
}

#[test]
fn missing_gateway_is_an_error() {
    let r = gen_daemon_conf(&empty_args(), &empty_file(), None, Some(String::from("node1")));
    assert!(matches!(r, Err(ConfigError::Gateway)));
}

#[test]
fn missing_hostname_is_an_error() {
    let r = gen_daemon_conf(&empty_args(), &empty_file(), Some(String::from("10.0.0.1")), None);
    assert!(matches!(r, Err(ConfigError::Hostname)));
}
