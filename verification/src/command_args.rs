//! The client's command line: `-h HOST` and `-p PORT`, and the endpoint that
//! they name.
use vstd::prelude::*;
use crate::text::{
    is_digit, join_spec, lemma_split_join, numeral_body, numeral_value, parse_numeral, split_on,
    split_spec, string_views,
};

verus! {

/// Where the client connects: a dotted IPv4 host and a decimal port, as text.
#[derive(Debug)]
pub struct CommandOption {
    pub host: String,
    pub port: String,
}

/// What the argument scanner expects next.
#[derive(PartialEq, Eq, Structural, Debug, Clone, Copy)]
pub enum ReadState {
    /// No flag is pending.
    Idle,
    /// `-h` was seen: the next plain argument is the host.
    HostKey,
    /// `-p` was seen: the next plain argument is the port.
    PortKey,
}

/// The host flag.
pub open spec fn host_flag() -> Seq<char> {
    seq!['-', 'h']
}

/// The port flag.
pub open spec fn port_flag() -> Seq<char> {
    seq!['-', 'p']
}

/// One step of the scanner over the argument `arg`: a flag is taken only
/// when no flag is pending, and a plain argument fills the pending field.
pub open spec fn scan_step(
    st: (ReadState, Seq<char>, Seq<char>),
    arg: Seq<char>,
) -> (ReadState, Seq<char>, Seq<char>) {
    let (state, host, port) = st;
    if arg == host_flag() {
        if state == ReadState::Idle {
            (ReadState::HostKey, host, port)
        } else {
            st
        }
    } else if arg == port_flag() {
        if state == ReadState::Idle {
            (ReadState::PortKey, host, port)
        } else {
            st
        }
    } else {
        match state {
            ReadState::HostKey => (ReadState::Idle, arg, port),
            ReadState::PortKey => (ReadState::Idle, host, arg),
            ReadState::Idle => st,
        }
    }
}

/// The scanner's state, host and port after reading `args` in order,
/// starting with no flag pending and the given host and port.
pub open spec fn scan_args(args: Seq<Seq<char>>, host: Seq<char>, port: Seq<char>) -> (
    ReadState,
    Seq<char>,
    Seq<char>,
)
    decreases args.len(),
{
    if args.len() == 0 {
        (ReadState::Idle, host, port)
    } else {
        scan_step(scan_args(args.drop_last(), host, port), args.last())
    }
}

/// Fills `option` from the command-line arguments: the argument after `-h`
/// becomes the host, the one after `-p` the port; the last such pair wins,
/// and every other argument (the program's name among them) is passed over.
pub fn analyze_args(option: &mut CommandOption, args: Vec<String>)
    ensures
        ({
            let (_, host, port) = scan_args(string_views(args@), old(option).host@, old(option).port@);
            final(option).host@ == host && final(option).port@ == port
        }),
{
    let host_key = String::from_str("-h");
    let port_key = String::from_str("-p");
    proof {
        reveal_strlit("-h");
        reveal_strlit("-p");
    }
    assert(host_key@ == host_flag());
    assert(port_key@ == port_flag());
    let ghost h0 = old(option).host@;
    let ghost p0 = old(option).port@;
    let mut state = ReadState::Idle;
    let mut i: usize = 0;
    while i < args.len()
        invariant
            i <= args@.len(),
            host_key@ == host_flag(),
            port_key@ == port_flag(),
            (state, option.host@, option.port@) == scan_args(
                string_views(args@).take(i as int),
                h0,
                p0,
            ),
        decreases args@.len() - i,
    {
        let arg = &args[i];
        proof {
            assert(string_views(args@).take(i + 1).drop_last() =~= string_views(args@).take(
                i as int,
            ));
            assert(string_views(args@).take(i + 1).last() == arg@);
        }
        if *arg == host_key {
            if state == ReadState::Idle {
                state = ReadState::HostKey;
            }
        } else if *arg == port_key {
            if state == ReadState::Idle {
                state = ReadState::PortKey;
            }
        } else {
            match state {
                ReadState::HostKey => {
                    state = ReadState::Idle;
                    option.host = arg.clone();
                },
                ReadState::PortKey => {
                    state = ReadState::Idle;
                    option.port = arg.clone();
                },
                ReadState::Idle => {},
            }
        }
        i = i + 1;
    }
    assert(string_views(args@).take(i as int) =~= string_views(args@));
}

/// An IPv4 socket address: four octets and a port.
#[derive(Debug, PartialEq, Eq, Clone, Copy)]
pub struct Endpoint {
    pub ip: [u8; 4],
    pub port: u16,
}

/// Whether every piece of the host is a numeral of at most 255.
pub open spec fn octets_ok(parts: Seq<Seq<char>>) -> bool {
    forall|i: int| 0 <= i < parts.len() ==> (#[trigger] numeral_value(parts[i], 255)) is Some
}

/// The octet that a piece of the host denotes.
pub open spec fn octet(piece: Seq<char>) -> u8 {
    numeral_value(piece, 255).unwrap() as u8
}

/// The endpoint that `host` and `port` name: the host is split on `.`,
/// every piece must be a numeral of at most 255 and there must be at least
/// four (the first four are the address), and the port a numeral of at
/// most 65535. Otherwise there is none.
pub open spec fn endpoint_of(host: Seq<char>, port: Seq<char>) -> Option<(Seq<u8>, u16)> {
    let parts = split_spec(host, '.');
    if octets_ok(parts) && parts.len() >= 4 && numeral_value(port, 65535) is Some {
        Some(
            (
                seq![octet(parts[0]), octet(parts[1]), octet(parts[2]), octet(parts[3])],
                numeral_value(port, 65535).unwrap() as u16,
            ),
        )
    } else {
        None
    }
}

impl CommandOption {
    /// The endpoint that the option names, or `None` where the host or the
    /// port is not well formed.
    pub fn to_endpoint(&self) -> (r: Option<Endpoint>)
        ensures
            match r {
                Some(e) => endpoint_of(self.host@, self.port@) == Some((e.ip@, e.port)),
                None => endpoint_of(self.host@, self.port@) is None,
            },
    {
        let parts = split_on(self.host.as_str(), '.');
        let ghost pv = split_spec(self.host@, '.');
        let mut octets: Vec<u8> = Vec::new();
        let mut i: usize = 0;
        while i < parts.len()
            invariant
                string_views(parts@) == pv,
                pv == split_spec(self.host@, '.'),
                i <= parts@.len(),
                octets@.len() == i,
                forall|j: int| 0 <= j < i ==> (#[trigger] numeral_value(pv[j], 255)) is Some,
                forall|j: int| 0 <= j < i ==> #[trigger] octets@[j] == octet(pv[j]),
            decreases parts@.len() - i,
        {
            assert(pv[i as int] == parts[i as int]@);
            match parse_numeral(parts[i].as_str(), 255) {
                Some(v) => {
                    octets.push(v as u8);
                },
                None => {
                    assert(numeral_value(pv[i as int], 255) is None);
                    assert(!octets_ok(pv));
                    return None;
                },
            }
            i = i + 1;
        }
        if octets.len() < 4 {
            return None;
        }
        let port = match parse_numeral(self.port.as_str(), 65535) {
            Some(v) => v as u16,
            None => {
                return None;
            },
        };
        let e = Endpoint { ip: [octets[0], octets[1], octets[2], octets[3]], port };
        assert(e.ip@ =~= seq![octet(pv[0]), octet(pv[1]), octet(pv[2]), octet(pv[3])]);
        Some(e)
    }
}

} // verus!

verus! {

proof fn lemma_numeral_has_no_dot(s: Seq<char>, max: nat)
    requires
        numeral_value(s, max) is Some,
    ensures
        !s.contains('.'),
{
    let d = numeral_body(s);
    if s.contains('.') {
        let j = choose|j: int| 0 <= j < s.len() && s[j] == '.';
        if s.len() > 0 && s[0] == '+' {
            assert(j > 0);
            assert(d[j - 1] == '.');
            assert(!is_digit(d[j - 1]));
        } else {
            assert(d[j] == '.');
            assert(!is_digit(d[j]));
        }
    }
}

/// Four numerals of at most 255 joined by dots, with a port numeral of at
/// most 65535, name the endpoint with those four octets, in order, and that
/// port; every octet may take any value from 0 to 255.
pub proof fn lemma_endpoint_of_dotted(
    a: Seq<char>,
    b: Seq<char>,
    c: Seq<char>,
    d: Seq<char>,
    port: Seq<char>,
)
    requires
        numeral_value(a, 255) is Some,
        numeral_value(b, 255) is Some,
        numeral_value(c, 255) is Some,
        numeral_value(d, 255) is Some,
        numeral_value(port, 65535) is Some,
    ensures
        endpoint_of(a + seq!['.'] + b + seq!['.'] + c + seq!['.'] + d, port) == Some(
            (
                seq![
                    numeral_value(a, 255).unwrap() as u8,
                    numeral_value(b, 255).unwrap() as u8,
                    numeral_value(c, 255).unwrap() as u8,
                    numeral_value(d, 255).unwrap() as u8,
                ],
                numeral_value(port, 65535).unwrap() as u16,
            ),
        ),
{
    let parts = seq![a, b, c, d];
    lemma_numeral_has_no_dot(a, 255);
    lemma_numeral_has_no_dot(b, 255);
    lemma_numeral_has_no_dot(c, 255);
    lemma_numeral_has_no_dot(d, 255);
    assert forall|i: int| 0 <= i < parts.len() implies !(#[trigger] parts[i]).contains('.') by {
        if i == 0 {
        } else if i == 1 {
        } else if i == 2 {
        } else {
        }
    }
    let p3 = parts.drop_last();
    let p2 = p3.drop_last();
    let p1 = p2.drop_last();
    assert(p1 =~= seq![a]);
    assert(p2 =~= seq![a, b]);
    assert(p3 =~= seq![a, b, c]);
    assert(join_spec(p1, '.') == a);
    assert(join_spec(p2, '.') == a.push('.') + b);
    assert(join_spec(p3, '.') == (a.push('.') + b).push('.') + c);
    assert(join_spec(parts, '.') =~= a + seq!['.'] + b + seq!['.'] + c + seq!['.'] + d);
    lemma_split_join(parts, '.');
    let host = a + seq!['.'] + b + seq!['.'] + c + seq!['.'] + d;
    assert(split_spec(host, '.') == parts);
    assert(octets_ok(parts)) by {
        assert forall|i: int| 0 <= i < parts.len() implies (#[trigger] numeral_value(
            parts[i],
            255,
        )) is Some by {
            if i == 0 {
            } else if i == 1 {
            } else if i == 2 {
            } else {
            }
        }
    }
}

/// After a scan that ends with no flag pending, `-h` and a plain argument
/// set the host to that argument and leave the port as it was.
pub proof fn lemma_scan_host_pair(
    args: Seq<Seq<char>>,
    host: Seq<char>,
    port: Seq<char>,
    x: Seq<char>,
)
    requires
        scan_args(args, host, port).0 == ReadState::Idle,
        x != seq!['-', 'h'],
        x != seq!['-', 'p'],
    ensures
        scan_args(args + seq![seq!['-', 'h'], x], host, port) == (
            ReadState::Idle,
            x,
            scan_args(args, host, port).2,
        ),
{
    let flag = seq!['-', 'h'];
    let all = args + seq![flag, x];
    let mid = args.push(flag);
    assert(all.drop_last() =~= mid);
    assert(mid.drop_last() =~= args);
    assert(all.last() == x);
    assert(mid.last() == flag);
    assert(flag =~= host_flag());
    let st = scan_args(args, host, port);
    assert(scan_args(mid, host, port) == scan_step(st, flag));
    assert(scan_args(all, host, port) == scan_step(scan_args(mid, host, port), x));
}

/// After a scan that ends with no flag pending, `-p` and a plain argument
/// set the port to that argument and leave the host as it was.
pub proof fn lemma_scan_port_pair(
    args: Seq<Seq<char>>,
    host: Seq<char>,
    port: Seq<char>,
    x: Seq<char>,
)
    requires
        scan_args(args, host, port).0 == ReadState::Idle,
        x != seq!['-', 'h'],
        x != seq!['-', 'p'],
    ensures
        scan_args(args + seq![seq!['-', 'p'], x], host, port) == (
            ReadState::Idle,
            scan_args(args, host, port).1,
            x,
        ),
{
    let flag = seq!['-', 'p'];
    let all = args + seq![flag, x];
    let mid = args.push(flag);
    assert(all.drop_last() =~= mid);
    assert(mid.drop_last() =~= args);
    assert(all.last() == x);
    assert(mid.last() == flag);
    assert(flag =~= port_flag());
    let st = scan_args(args, host, port);
    assert(scan_args(mid, host, port) == scan_step(st, flag));
    assert(scan_args(all, host, port) == scan_step(scan_args(mid, host, port), x));
}

/// With no flag pending, a plain argument changes nothing.
pub proof fn lemma_scan_plain(args: Seq<Seq<char>>, host: Seq<char>, port: Seq<char>, x: Seq<char>)
    requires
        scan_args(args, host, port).0 == ReadState::Idle,
        x != seq!['-', 'h'],
        x != seq!['-', 'p'],
    ensures
        scan_args(args.push(x), host, port) == scan_args(args, host, port),
{
    assert(args.push(x).drop_last() =~= args);
}

/// The scanner starts with no flag pending and the given host and port.
pub proof fn lemma_scan_empty(host: Seq<char>, port: Seq<char>)
    ensures
        scan_args(Seq::<Seq<char>>::empty(), host, port) == (ReadState::Idle, host, port),
{
}

} // verus!
