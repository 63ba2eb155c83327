use tcp_board::command_args::{analyze_args, CommandOption, Endpoint};
use tcp_board::tcp::Client;

fn args(v: &[&str]) -> Vec<String> {
    v.iter().map(|s| s.to_string()).collect()
}

fn empty_option() -> CommandOption {
    CommandOption { host: String::new(), port: String::new() }
}

fn option(host: &str, port: &str) -> CommandOption {
    CommandOption { host: host.to_string(), port: port.to_string() }
}

#[test]
fn flags_fill_host_and_port() {
    let mut o = empty_option();
    analyze_args(&mut o, args(&["client", "-h", "127.0.0.1", "-p", "8080"]));
    assert_eq!(o.host, "127.0.0.1");
    assert_eq!(o.port, "8080");
}

#[test]
fn plain_arguments_without_flag_are_ignored() {
    let mut o = option("h", "p");
    analyze_args(&mut o, args(&["client", "x", "y"]));
    assert_eq!(o.host, "h");
    assert_eq!(o.port, "p");
}

#[test]
fn pending_flag_ignores_a_second_flag() {
    let mut o = empty_option();
    analyze_args(&mut o, args(&["client", "-h", "-p", "10.0.0.1"]));
    assert_eq!(o.host, "10.0.0.1");
    assert_eq!(o.port, "");
}

#[test]
fn last_pair_wins() {
    let mut o = empty_option();
    analyze_args(&mut o, args(&["-p", "1", "-p", "2", "-h"]));
    assert_eq!(o.port, "2");
    assert_eq!(o.host, "");
}

#[test]
fn endpoint_of_dotted_host_and_port() {
    assert_eq!(
        option("127.0.0.1", "8080").to_endpoint(),
        Some(Endpoint { ip: [127, 0, 0, 1], port: 8080 })
    );
    assert_eq!(
        option("+1.02.3.255", "+65535").to_endpoint(),
        Some(Endpoint { ip: [1, 2, 3, 255], port: 65535 })
    );
}

#[test]
fn endpoint_uses_first_four_octets_of_longer_hosts() {
    assert_eq!(
        option("1.2.3.4.5", "1").to_endpoint(),
        Some(Endpoint { ip: [1, 2, 3, 4], port: 1 })
    );
}

#[test]
fn endpoint_refuses_bad_hosts_and_ports() {
    assert_eq!(option("1.2.3", "80").to_endpoint(), None);
    assert_eq!(option("1.2.3.256", "80").to_endpoint(), None);
    assert_eq!(option("1.2.3.4.x", "80").to_endpoint(), None);
    assert_eq!(option("1..3.4", "80").to_endpoint(), None);
    assert_eq!(option("localhost", "80").to_endpoint(), None);
    assert_eq!(option("1.2.3.4", "65536").to_endpoint(), None);
    assert_eq!(option("1.2.3.4", "").to_endpoint(), None);
}

#[test]
fn client_keeps_its_option() {
    let c = Client::new(option("1.2.3.4", "5"));
    assert_eq!(c.command_option().host, "1.2.3.4");
    assert_eq!(c.command_option().port, "5");
}
