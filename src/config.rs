use vstd::prelude::*;

verus! {

/// Daemon arguments as given on the command line.
pub struct Cli {
    pub hosts: Option<Vec<String>>,
    pub state_dir: Option<String>,
    pub docker_host: Option<String>,
    pub gateway: Option<String>,
    pub hostname: Option<String>,
    pub advertise_addr: Option<String>,
    pub conf_dir: String,
    pub init: bool,
    pub gid: u32,
    pub nodes: Vec<String>,
}

/// Settings read from the daemon's configuration file; every field is optional.
pub struct DaemonConfigFile {
    pub hosts: Option<Vec<String>>,
    pub state_dir: Option<String>,
    pub docker_host: Option<String>,
    pub gateway: Option<String>,
    pub hostname: Option<String>,
}

/// The effective daemon configuration.
pub struct DaemonConfig {
    pub hosts: Vec<String>,
    pub gateway: String,
    pub hostname: String,
    pub state_dir: String,
    pub docker_host: String,
    pub gid: u32,
    pub advertise_addr: String,
    pub nodes: Vec<String>,
    pub conf_dir: String,
}

/// A setting that neither the arguments, the file nor the host could provide.
#[derive(Debug, Clone, Copy, PartialEq, Eq, Structural)]
pub enum ConfigError {
    Gateway,
    Hostname,
}

pub open spec fn strings_view(v: Seq<String>) -> Seq<Seq<char>> {
    v.map_values(|s: String| s@)
}

pub open spec fn opt_view(o: Option<String>) -> Option<Seq<char>> {
    match o {
        Some(s) => Some(s@),
        None => None,
    }
}

/// First of the two that is set, else the fallback.
pub open spec fn first_set<T>(a: Option<T>, b: Option<T>, fallback: T) -> T {
    match a {
        Some(x) => x,
        None => match b {
            Some(y) => y,
            None => fallback,
        },
    }
}

pub open spec fn hosts_view(o: Option<Vec<String>>) -> Option<Seq<Seq<char>>> {
    match o {
        Some(v) => Some(strings_view(v@)),
        None => None,
    }
}

pub open spec fn spec_default_host() -> Seq<char> {
    "unix:///run/nanocl/nanocl.sock"@
}

pub open spec fn spec_default_state_dir() -> Seq<char> {
    "/var/lib/nanocl"@
}

pub open spec fn spec_default_docker_host() -> Seq<char> {
    "/run/docker.sock"@
}

/// Copies a list of strings.
pub fn copy_strings(v: &Vec<String>) -> (r: Vec<String>)
    ensures
        r@ == v@,
{
    let mut r: Vec<String> = Vec::new();
    let mut i: usize = 0;
    while i < v.len()
        invariant
            i <= v@.len(),
            r@ == v@.subrange(0, i as int),
        decreases v@.len() - i,
    {
        r.push(v[i].clone());
        i = i + 1;
        assert(r@ =~= v@.subrange(0, i as int));
    }
    assert(v@.subrange(0, v@.len() as int) =~= v@);
    r
}

/// The first of `a`, `b` that is set, cloned.
fn pick(a: &Option<String>, b: &Option<String>) -> (r: Option<String>)
    ensures
        opt_view(r) == (match opt_view(*a) {
            Some(x) => Some(x),
            None => opt_view(*b),
        }),
{
    match a {
        Some(x) => Some(x.clone()),
        None => match b {
            Some(y) => Some(y.clone()),
            None => None,
        },
    }
}

/// Merges arguments over the file over built-in defaults. Gateway and hostname fall back
/// to the values detected on the host (`None` when detection failed); the advertised
/// address defaults to the gateway.
pub fn gen_daemon_conf(
    args: &Cli,
    config: &DaemonConfigFile,
    detected_gateway: Option<String>,
    detected_hostname: Option<String>,
) -> (r: Result<DaemonConfig, ConfigError>)
    ensures
        opt_view(args.gateway) is None && opt_view(config.gateway) is None && detected_gateway is None
            <==> r == Err::<DaemonConfig, ConfigError>(ConfigError::Gateway),
        r == Err::<DaemonConfig, ConfigError>(ConfigError::Hostname) <==> !(opt_view(args.gateway) is None
            && opt_view(config.gateway) is None && detected_gateway is None) && opt_view(args.hostname) is None
            && opt_view(config.hostname) is None && detected_hostname is None,
        r is Ok ==> {
            let c = r->Ok_0;
            &&& strings_view(c.hosts@) == first_set(hosts_view(args.hosts), hosts_view(config.hosts), seq![spec_default_host()])
            &&& c.state_dir@ == first_set(opt_view(args.state_dir), opt_view(config.state_dir), spec_default_state_dir())
            &&& c.docker_host@ == first_set(opt_view(args.docker_host), opt_view(config.docker_host), spec_default_docker_host())
            &&& c.gateway@ == first_set(opt_view(args.gateway), opt_view(config.gateway), opt_view(detected_gateway)->Some_0)
            &&& c.hostname@ == first_set(opt_view(args.hostname), opt_view(config.hostname), opt_view(detected_hostname)->Some_0)
            &&& c.advertise_addr@ == first_set(opt_view(args.advertise_addr), None, c.gateway@)
            &&& c.gid == args.gid
            &&& c.nodes@ == args.nodes@
            &&& c.conf_dir@ == args.conf_dir@
        },
{
    let hosts = match &args.hosts {
        Some(h) => copy_strings(h),
        None => match &config.hosts {
            Some(h) => copy_strings(h),
            None => {
                let mut v: Vec<String> = Vec::new();
                v.push("unix:///run/nanocl/nanocl.sock".to_owned());
                v
            },
        },
    };
    proof {
        if args.hosts is None && config.hosts is None {
            assert(strings_view(hosts@) =~= seq![spec_default_host()]);
        }
    }
    let state_dir = match pick(&args.state_dir, &config.state_dir) {
        Some(s) => s,
        None => "/var/lib/nanocl".to_owned(),
    };
    let docker_host = match pick(&args.docker_host, &config.docker_host) {
        Some(s) => s,
        None => "/run/docker.sock".to_owned(),
    };
    let gateway = match pick(&args.gateway, &config.gateway) {
        Some(s) => s,
        None => match detected_gateway {
            Some(s) => s,
            None => return Err(ConfigError::Gateway),
        },
    };
    let hostname = match pick(&args.hostname, &config.hostname) {
        Some(s) => s,
        None => match detected_hostname {
            Some(s) => s,
            None => return Err(ConfigError::Hostname),
        },
    };
    let advertise_addr = match &args.advertise_addr {
        Some(a) => a.clone(),
        None => gateway.clone(),
    };
    Ok(DaemonConfig {
        hosts,
        gateway,
        hostname,
        state_dir,
        docker_host,
        gid: args.gid,
        advertise_addr,
        nodes: copy_strings(&args.nodes),
        conf_dir: args.conf_dir.clone(),
    })
}

} // verus!
