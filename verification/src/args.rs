//! The server's command-line settings and the addresses they name.
use crate::decimal::{decimal, decimal_of_u64, nat_digits};
use crate::frame::lemma_decimal_ascii;
use crate::text::{ascii_chars, ascii_str};
use vstd::prelude::*;
use vstd::string::StringExecFns;

verus! {

/// Where the server listens, and where its metrics server listens.
pub struct Args {
    pub port: Option<u16>,
    pub bind: Option<String>,
    pub metrics_port: Option<u16>,
    pub metrics_bind: Option<String>,
}

/// `host:port`, with the defaults for what is missing.
pub open spec fn address_text(bind: Option<String>, port: Option<u16>, default_port: u16) -> Seq<char> {
    let host = match bind {
        Some(b) => b@,
        None => "127.0.0.1"@,
    };
    let p = match port {
        Some(p) => p,
        None => default_port,
    };
    host + ":"@ + ascii_chars(decimal(p as int))
}

/// The address is the host, `:` and the port's decimal numeral. The host is
/// the one given, else `127.0.0.1`; the port is the one given, whether or not
/// a host is, else the default.
pub proof fn law_address_parts(h: String, p: u16, d: u16)
    ensures
        address_text(Some(h), Some(p), d) == h@ + ":"@ + ascii_chars(decimal(p as int)),
        address_text(None, Some(p), d) == "127.0.0.1"@ + ":"@ + ascii_chars(decimal(p as int)),
        address_text(Some(h), None, d) == h@ + ":"@ + ascii_chars(decimal(d as int)),
        address_text(None, None, d) == "127.0.0.1"@ + ":"@ + ascii_chars(decimal(d as int)),
{
}

/// With nothing given the server listens on `127.0.0.1:6379` and the metrics
/// server on `127.0.0.1:9000`; a port given alone keeps host `127.0.0.1`.
pub proof fn law_default_addresses(p: u16)
    ensures
        address_text(None, None, 6379) == "127.0.0.1:6379"@,
        address_text(None, None, 9000) == "127.0.0.1:9000"@,
        address_text(None, Some(p), 6379) == "127.0.0.1:"@ + ascii_chars(decimal(p as int)),
{
    reveal_strlit("127.0.0.1:6379");
    reveal_strlit("127.0.0.1:9000");
    reveal_strlit("127.0.0.1:");
    reveal_strlit("127.0.0.1");
    reveal_strlit(":");
    reveal_with_fuel(nat_digits, 5);
    assert(ascii_chars(decimal(6379)) =~= seq!['6', '3', '7', '9']);
    assert(ascii_chars(decimal(9000)) =~= seq!['9', '0', '0', '0']);
    assert(address_text(None, None, 6379) =~= "127.0.0.1:6379"@);
    assert(address_text(None, None, 9000) =~= "127.0.0.1:9000"@);
    assert("127.0.0.1"@ + ":"@ =~= "127.0.0.1:"@);
}

/// `host:port` from the given parts.
fn address(bind: &Option<String>, port: Option<u16>, default_port: u16) -> (s: String)
    ensures
        s@ == address_text(*bind, port, default_port),
{
    let p = match port {
        Some(p) => p,
        None => default_port,
    };
    let mut s = match bind {
        Some(b) => b.clone(),
        None => "127.0.0.1".to_owned(),
    };
    s.append(":");
    let digits = decimal_of_u64(p as u64);
    proof {
        lemma_decimal_ascii(p as int);
    }
    s.append(ascii_str(digits.as_slice()));
    s
}

impl Args {
    /// The address to listen on: the bound host (default `127.0.0.1`) and
    /// the port (default 6379).
    pub fn get_addr(&self) -> (s: String)
        ensures
            s@ == address_text(self.bind, self.port, 6379),
    {
        address(&self.bind, self.port, 6379)
    }

    /// The address of the metrics server, as text: the metrics host
    /// (default `127.0.0.1`) and port (default 9000).
    pub fn get_metrics_addr_text(&self) -> (s: String)
        ensures
            s@ == address_text(self.metrics_bind, self.metrics_port, 9000),
    {
        address(&self.metrics_bind, self.metrics_port, 9000)
    }
}

} // verus!
