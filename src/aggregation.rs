use vstd::prelude::*;
use vstd::string::StringExecFns;

verus! {

/// Connection settings of the analytical database handed to the aggregations runner.
#[derive(Debug)]
pub struct ClickHouseConfig {
    pub db_name: String,
    pub host: String,
    pub host_port: i32,
    pub user: String,
    pub password: String,
    pub use_ssl: bool,
}

pub open spec fn digit_char(d: nat) -> char {
    if d == 0 {
        '0'
    } else if d == 1 {
        '1'
    } else if d == 2 {
        '2'
    } else if d == 3 {
        '3'
    } else if d == 4 {
        '4'
    } else if d == 5 {
        '5'
    } else if d == 6 {
        '6'
    } else if d == 7 {
        '7'
    } else if d == 8 {
        '8'
    } else {
        '9'
    }
}

/// The decimal digits of a natural number, most significant first.
pub open spec fn digits_of(n: nat) -> Seq<char>
    decreases n,
{
    if n < 10 {
        seq![digit_char(n)]
    } else {
        digits_of(n / 10).push(digit_char(n % 10))
    }
}

/// The decimal text of an integer, with a leading minus sign when it is negative.
pub open spec fn decimal_of(n: int) -> Seq<char> {
    if n < 0 {
        seq!['-'] + digits_of((-n) as nat)
    } else {
        digits_of(n as nat)
    }
}

/// Relies on `ToString for i32` (through `Display`): the decimal text of the number,
/// with a minus sign when it is negative.
#[verifier::external_body]
fn port_text(n: i32) -> (r: String)
    ensures
        r@ == decimal_of(n as int),
{
    n.to_string()
}

pub open spec fn bool_text(b: bool) -> Seq<char> {
    if b {
        "true"@
    } else {
        "false"@
    }
}

/// The arguments of the aggregations runner: the aggregations directory, then the
/// database name, host, port, user, password and whether to use TLS.
pub fn runner_args(aggregations_path: String, config: &ClickHouseConfig) -> (r: Vec<String>)
    ensures
        r@.len() == 7,
        r@[0]@ == aggregations_path@,
        r@[1]@ == config.db_name@,
        r@[2]@ == config.host@,
        r@[3]@ == decimal_of(config.host_port as int),
        r@[4]@ == config.user@,
        r@[5]@ == config.password@,
        r@[6]@ == bool_text(config.use_ssl),
{
    let ssl = if config.use_ssl {
        proof {
            reveal_strlit("true");
        }
        String::from_str("true")
    } else {
        proof {
            reveal_strlit("false");
        }
        String::from_str("false")
    };
    let mut r: Vec<String> = Vec::new();
    r.push(aggregations_path);
    r.push(config.db_name.clone());
    r.push(config.host.clone());
    r.push(port_text(config.host_port));
    r.push(config.user.clone());
    r.push(config.password.clone());
    r.push(ssl);
    r
}

} // verus!
