use vstd::prelude::*;

verus! {

/// Where log lines go: the system log under a process name, or plain
/// printing through the environment logger.
pub enum LogChoice {
    Syslog(String),
    Print,
}

/// Picks the logging sink from the configuration's `log` value and its
/// optional syslog process name: `syslog` selects the system log under
/// the configured name (default "Ufo-Websocket"); anything else,
/// including an absent value, selects plain printing.
pub fn choose_logging(log: Option<String>, syslog_name: Option<String>) -> (r: LogChoice)
    ensures
        (log matches Some(l) && l@ == "syslog"@) ==> (r matches LogChoice::Syslog(name) && name@
            == (match syslog_name {
            Some(n) => n@,
            None => "Ufo-Websocket"@,
        })),
        !(log matches Some(l) && l@ == "syslog"@) ==> r is Print,
{
    match log {
        Some(l) => {
            let sys: String = String::from_str("syslog");
            if l == sys {
                match syslog_name {
                    Some(n) => LogChoice::Syslog(n),
                    None => LogChoice::Syslog(String::from_str("Ufo-Websocket")),
                }
            } else {
                LogChoice::Print
            }
        },
        None => LogChoice::Print,
    }
}

/// The effective listener ports: the configured values, or the defaults
/// 8080 for the public endpoint and 8081 for the control endpoint.
pub fn effective_ports(frontend: Option<u16>, backend: Option<u16>) -> (r: (u16, u16))
    ensures
        r.0 == (match frontend {
            Some(p) => p,
            None => 8080u16,
        }),
        r.1 == (match backend {
            Some(p) => p,
            None => 8081u16,
        }),
{
    let f = match frontend {
        Some(p) => p,
        None => 8080,
    };
    let b = match backend {
        Some(p) => p,
        None => 8081,
    };
    (f, b)
}

} // verus!
