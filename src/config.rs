//! Launch configuration, resolved from optional settings and their defaults.

use crate::semantic::{parse_u32, u32_of};
use crate::text::{chars_of, string_from_chars};
use vstd::prelude::*;
use vstd::string::*;

verus! {

/// DBMS configuration.
#[derive(Debug, Clone)]
pub struct Config {
    /// Path to database state, `/var/lib/emdrive/data` by default.
    pub data_directory: String,
    /// TCP interface listener host, `127.0.0.1` by default.
    pub tcp_listen_host: String,
    /// TCP interface listener port, `8824` by default.
    pub tcp_listen_port: u16,
}

pub const DEFAULT_TCP_LISTEN_PORT: u16 = 8824;

impl Default for Config {
    fn default() -> (r: Config)
        ensures
            r.data_directory@ == "/var/lib/emdrive/data"@,
            r.tcp_listen_host@ == "127.0.0.1"@,
            r.tcp_listen_port == DEFAULT_TCP_LISTEN_PORT,
    {
        Config {
            data_directory: String::from_str("/var/lib/emdrive/data"),
            tcp_listen_host: String::from_str("127.0.0.1"),
            tcp_listen_port: DEFAULT_TCP_LISTEN_PORT,
        }
    }
}

/// ASCII upper case of a character; other characters are kept.
pub open spec fn ascii_upper(c: char) -> char {
    if 'a' <= c && c <= 'z' {
        (((c as u32) - 32) as u8) as char
    } else {
        c
    }
}

/// The environment variable that holds a configuration key: `EMDRIVE_` and the
/// key in upper case.
pub open spec fn env_name(key: Seq<char>) -> Seq<char> {
    seq!['E', 'M', 'D', 'R', 'I', 'V', 'E', '_'] + key.map_values(|c: char| ascii_upper(c))
}

/// Formats a configuration key as the name of its environment variable.
pub fn envify_config_key(key: &str) -> (r: String)
    ensures
        r@ == env_name(key@),
{
    let chars = chars_of(key);
    let mut out: Vec<char> = vec!['E', 'M', 'D', 'R', 'I', 'V', 'E', '_'];
    let mut i: usize = 0;
    while i < chars.len()
        invariant
            i <= chars@.len(),
            out@ == seq!['E', 'M', 'D', 'R', 'I', 'V', 'E', '_'] + chars@.take(i as int).map_values(
                |c: char| ascii_upper(c),
            ),
        decreases chars@.len() - i,
    {
        let c = chars[i];
        let u = if 'a' <= c && c <= 'z' {
            (((c as u32) - 32) as u8) as char
        } else {
            c
        };
        out.push(u);
        proof {
            assert(chars@.take(i + 1).map_values(|c: char| ascii_upper(c)) =~= chars@.take(
                i as int,
            ).map_values(|c: char| ascii_upper(c)).push(u));
        }
        i += 1;
    }
    proof {
        assert(chars@.take(i as int) =~= chars@);
    }
    string_from_chars(&out)
}

/// A setting's value if it was given, else the default.
pub fn get_env_or(value: Option<String>, default: String) -> (r: String)
    ensures
        r == match value {
            Some(v) => v,
            None => default,
        },
{
    match value {
        Some(v) => v,
        None => default,
    }
}

/// A port setting read as a number if it was given, else the default; a value
/// that is not a port number is an error that names the key.
pub fn get_env_cast_or(key: &str, value: Option<String>, default: u16) -> (r: Result<u16, String>)
    ensures
        match value {
            None => r == Ok::<u16, String>(default),
            Some(v) => match u32_of(v@) {
                Some(n) => if n <= 0xffff {
                    r == Ok::<u16, String>(n as u16)
                } else {
                    r is Err
                },
                None => r is Err,
            },
        },
{
    match value {
        None => Ok(default),
        Some(v) => {
            let chars = chars_of(v.as_str());
            match parse_u32(&chars) {
                Some(n) => if n <= 0xffff {
                    Ok(n as u16)
                } else {
                    Err(v.concat(" is not a valid ").concat(key).concat(" value!"))
                },
                None => Err(v.concat(" is not a valid ").concat(key).concat(" value!")),
            }
        },
    }
}

impl Config {
    /// The configuration from the settings that were given, with the defaults
    /// for the others.
    pub fn from_values(
        data_directory: Option<String>,
        tcp_listen_host: Option<String>,
        tcp_listen_port: Option<String>,
    ) -> (r: Result<Config, String>)
        ensures
            r matches Ok(c) ==> (match data_directory {
                Some(d) => c.data_directory == d,
                None => c.data_directory@ == "/var/lib/emdrive/data"@,
            }) && (match tcp_listen_host {
                Some(h) => c.tcp_listen_host == h,
                None => c.tcp_listen_host@ == "127.0.0.1"@,
            }) && (tcp_listen_port is None ==> c.tcp_listen_port == DEFAULT_TCP_LISTEN_PORT),
            tcp_listen_port is None ==> r is Ok,
    {
        let default = Config::default();
        let port = match get_env_cast_or("tcp_listen_port", tcp_listen_port, default.tcp_listen_port) {
            Ok(p) => p,
            Err(e) => return Err(e),
        };
        Ok(
            Config {
                data_directory: get_env_or(data_directory, default.data_directory),
                tcp_listen_host: get_env_or(tcp_listen_host, default.tcp_listen_host),
                tcp_listen_port: port,
            },
        )
    }

    /// The settings as `NAME="value"` lines.
    pub fn to_string(&self) -> (r: String) {
        let port = crate::text::decimal_string(self.tcp_listen_port as usize);
        envify_config_key("data_directory").concat("=\"").concat(self.data_directory.as_str()).concat(
            "\"\n",
        ).concat(envify_config_key("tcp_listen_host").as_str()).concat("=\"").concat(
            self.tcp_listen_host.as_str(),
        ).concat("\"\n").concat(envify_config_key("tcp_listen_port").as_str()).concat("=").concat(
            port.as_str(),
        )
    }
}

} // verus!
