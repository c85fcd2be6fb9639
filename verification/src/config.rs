//! Settings read from the environment: the server's address, and where the
//! daemon's discovery file lives. The environment itself is read by the
//! caller, who hands over each variable's value (`None` when unset).
use crate::text::{chars_of, decimal, digit_char, push_char, push_decimal, push_str, string_from};
use vstd::prelude::*;

verus! {

/// The value of a decimal digit character.
pub open spec fn digit_value(c: char) -> int {
    c as int - '0' as int
}

/// Whether every character of `s` is an ASCII digit.
pub open spec fn all_digits(s: Seq<char>) -> bool {
    forall|i: int| 0 <= i < s.len() ==> '0' <= #[trigger] s[i] <= '9'
}

/// The number the digits of `s` spell.
pub open spec fn digits_value(s: Seq<char>) -> int
    decreases s.len(),
{
    if s.len() == 0 {
        0
    } else {
        digits_value(s.drop_last()) * 10 + digit_value(s.last())
    }
}

/// How `str::parse::<u16>` reads `s`: an optional `+`, then one or more
/// digits whose value fits in 16 bits.
pub open spec fn spec_parse_u16(s: Seq<char>) -> Option<u16> {
    let d = if s.len() > 0 && s[0] == '+' {
        s.skip(1)
    } else {
        s
    };
    if d.len() > 0 && all_digits(d) && digits_value(d) <= u16::MAX {
        Some(digits_value(d) as u16)
    } else {
        None
    }
}

proof fn lemma_digits_value_nonneg(s: Seq<char>)
    requires
        all_digits(s),
    ensures
        digits_value(s) >= 0,
    decreases s.len(),
{
    if s.len() > 0 {
        lemma_digits_value_nonneg(s.drop_last());
    }
}

/// Reads `s` as a 16-bit unsigned number, as `str::parse::<u16>` does.
pub fn parse_u16(s: &str) -> (r: Option<u16>)
    ensures
        r == spec_parse_u16(s@),
{
    let v = chars_of(s);
    let start: usize = if v.len() > 0 && v[0] == '+' {
        1
    } else {
        0
    };
    let ghost d = if v@.len() > 0 && v@[0] == '+' {
        v@.skip(1)
    } else {
        v@
    };
    assert(d =~= v@.skip(start as int));
    if start == v.len() {
        return None;
    }
    let mut value: u32 = 0;
    let mut i: usize = start;
    while i < v.len()
        invariant
            v@ == s@,
            start <= i <= v@.len(),
            d == v@.skip(start as int),
            d == if s@.len() > 0 && s@[0] == '+' {
                s@.skip(1)
            } else {
                s@
            },
            all_digits(v@.subrange(start as int, i as int)),
            value as int == digits_value(v@.subrange(start as int, i as int)),
            value <= u16::MAX,
        decreases v.len() - i,
    {
        let c = v[i];
        if c < '0' || c > '9' {
            proof {
                assert(d[i - start] == c);
                assert(!all_digits(d));
            }
            return None;
        }
        let next = value * 10 + ((c as u32) - ('0' as u32));
        proof {
            let p = v@.subrange(start as int, i as int + 1);
            assert(p.drop_last() =~= v@.subrange(start as int, i as int));
            assert(p.last() == c);
            assert forall|j: int| 0 <= j < p.len() implies '0' <= #[trigger] p[j] <= '9' by {
                if j < p.len() - 1 {
                    assert(p[j] == v@.subrange(start as int, i as int)[j]);
                }
            }
        }
        if next > 65535 {
            proof {
                let p = v@.subrange(start as int, i as int + 1);
                let rest = v@.subrange(i as int + 1, v@.len() as int);
                assert(d =~= p + rest);
                lemma_prefix_value_bounds(p, rest);
                assert(digits_value(p) == next);
            }
            return None;
        }
        value = next;
        i = i + 1;
    }
    assert(v@.subrange(start as int, v@.len() as int) =~= d);
    Some(value as u16)
}

/// A number's digits never spell less than a prefix of them does.
proof fn lemma_prefix_value_bounds(p: Seq<char>, rest: Seq<char>)
    requires
        all_digits(p),
    ensures
        all_digits(p + rest) ==> digits_value(p + rest) >= digits_value(p),
    decreases rest.len(),
{
    if rest.len() > 0 && all_digits(p + rest) {
        let q = p + rest.drop_last();
        assert((p + rest).drop_last() =~= q);
        assert(all_digits(q)) by {
            assert forall|i: int| 0 <= i < q.len() implies '0' <= #[trigger] q[i] <= '9' by {
                assert(q[i] == (p + rest)[i]);
            }
        }
        lemma_prefix_value_bounds(p, rest.drop_last());
        lemma_digits_value_nonneg(q);
        assert((p + rest).last() == (p + rest)[(p + rest).len() - 1]);
    }
}

proof fn lemma_digit_char_value(d: int)
    requires
        0 <= d < 10,
    ensures
        '0' <= digit_char(d) <= '9',
        digit_value(digit_char(d)) == d,
{
}

/// The digits `decimal` writes spell the number they were written for.
proof fn lemma_decimal_digits(n: nat)
    ensures
        decimal(n).len() > 0,
        all_digits(decimal(n)),
        digits_value(decimal(n)) == n,
    decreases n,
{
    lemma_digit_char_value((n % 10) as int);
    if n < 10 {
        assert(n % 10 == n);
        assert(decimal(n).drop_last() =~= Seq::<char>::empty());
        assert(decimal(n).last() == digit_char(n as int));
        assert(digits_value(decimal(n)) == digits_value(Seq::<char>::empty()) * 10 + digit_value(
            digit_char(n as int),
        ));
    } else {
        lemma_decimal_digits(n / 10);
        assert(n == (n / 10) * 10 + n % 10) by (nonlinear_arith);
        let d = decimal(n);
        assert(d.last() == digit_char((n % 10) as int));
        assert(digits_value(d) == digits_value(d.drop_last()) * 10 + digit_value(d.last()));
        assert(d.drop_last() =~= decimal(n / 10));
        assert forall|i: int| 0 <= i < d.len() implies '0' <= #[trigger] d[i] <= '9' by {
            if i < d.len() - 1 {
                assert(d[i] == decimal(n / 10)[i]);
            }
        }
    }
}

/// A port written out in decimal (as in a server address) reads back as the
/// same port.
pub proof fn law_port_text_round_trip(port: u16)
    ensures
        spec_parse_u16(decimal(port as nat)) == Some(port),
{
    lemma_decimal_digits(port as nat);
    let d = decimal(port as nat);
    assert('0' <= d[0] <= '9');
}

/// Where the HTTP server listens.
#[derive(Debug, Clone)]
pub struct ServerConfig {
    /// Host to bind to.
    pub host: String,
    /// Port to listen on.
    pub port: u16,
}

impl Default for ServerConfig {
    /// All interfaces, port 3000.
    fn default() -> (r: Self)
        ensures
            r.host@ == "0.0.0.0"@,
            r.port == 3000,
    {
        ServerConfig { host: string_from("0.0.0.0"), port: 3000 }
    }
}

/// The text of a server address: host, a colon, the port.
pub open spec fn address_text(host: Seq<char>, port: u16) -> Seq<char> {
    host + ":"@ + decimal(port as nat)
}

impl ServerConfig {
    /// The configuration the environment gives: `PHLOEM_HOST` (all
    /// interfaces when unset) and `PHLOEM_PORT` (3000 when unset or not a
    /// 16-bit number). Each argument is that variable's value, if set.
    pub fn from_env(host_var: Option<String>, port_var: Option<String>) -> (r: Self)
        ensures
            r.host@ == match host_var {
                Some(h) => h@,
                None => "0.0.0.0"@,
            },
            r.port == match port_var {
                Some(p) => match spec_parse_u16(p@) {
                    Some(n) => n,
                    None => 3000,
                },
                None => 3000u16,
            },
    {
        let host = match host_var {
            Some(h) => h,
            None => string_from("0.0.0.0"),
        };
        let port = match port_var {
            Some(p) => match parse_u16(p.as_str()) {
                Some(n) => n,
                None => 3000,
            },
            None => 3000,
        };
        ServerConfig { host, port }
    }

    /// `host:port`.
    pub fn to_string(&self) -> (r: String)
        ensures
            r@ == address_text(self.host@, self.port),
    {
        let mut out = String::new();
        push_str(&mut out, self.host.as_str());
        push_char(&mut out, ':');
        push_decimal(&mut out, self.port as u64);
        proof {
            reveal_strlit(":");
            assert(out@ =~= address_text(self.host@, self.port));
        }
        out
    }
}

/// `base` with the relative component `comp` appended, as `PathBuf::push`
/// does on Unix: a `/` goes between them unless `base` is empty or already
/// ends in one.
pub open spec fn join_path(base: Seq<char>, comp: Seq<char>) -> Seq<char> {
    if base.len() > 0 && base.last() != '/' {
        base + "/"@ + comp
    } else {
        base + comp
    }
}

/// `base` joined with the relative component `comp`.
fn join(base: String, comp: &str) -> (r: String)
    ensures
        r@ == join_path(base@, comp@),
{
    let v = chars_of(base.as_str());
    let mut out = base;
    if v.len() > 0 && v[v.len() - 1] != '/' {
        push_char(&mut out, '/');
    }
    push_str(&mut out, comp);
    proof {
        reveal_strlit("/");
        assert(out@ =~= join_path(v@, comp@));
    }
    out
}

/// The per-user state directory: `$XDG_STATE_HOME` when set and not empty,
/// else `$HOME/.local/state`, else none.
pub open spec fn spec_state_dir(xdg_state_home: Option<Seq<char>>, home: Option<Seq<char>>) -> Option<
    Seq<char>,
> {
    match xdg_state_home {
        Some(x) if x.len() > 0 => Some(x),
        _ => match home {
            Some(h) => Some(join_path(join_path(h, ".local"@), "state"@)),
            None => None,
        },
    }
}

/// The view of an optional text.
pub open spec fn opt_view(o: Option<String>) -> Option<Seq<char>> {
    match o {
        Some(s) => Some(s@),
        None => None,
    }
}

/// The per-user state directory, from the values of `XDG_STATE_HOME` and
/// `HOME`.
pub fn state_dir(xdg_state_home: Option<String>, home: Option<String>) -> (r: Option<String>)
    ensures
        opt_view(r) == spec_state_dir(opt_view(xdg_state_home), opt_view(home)),
{
    match xdg_state_home {
        Some(x) => {
            if !x.as_str().is_empty() {
                return Some(x);
            }
        },
        None => {},
    }
    match home {
        Some(h) => Some(join(join(h, ".local"), "state")),
        None => None,
    }
}

/// `<state_dir>/agentik`, given the state directory.
pub fn agentik_dir(state_dir: Option<String>) -> (r: Option<String>)
    ensures
        opt_view(r) == match opt_view(state_dir) {
            Some(d) => Some(join_path(d, "agentik"@)),
            None => None::<Seq<char>>,
        },
{
    match state_dir {
        Some(d) => Some(join(d, "agentik")),
        None => None,
    }
}

/// The daemon's discovery file, `<state_dir>/agentik/daemon.json`, given the
/// state directory.
pub fn daemon_json_path(state_dir: Option<String>) -> (r: Option<String>)
    ensures
        opt_view(r) == match opt_view(state_dir) {
            Some(d) => Some(join_path(join_path(d, "agentik"@), "daemon.json"@)),
            None => None::<Seq<char>>,
        },
{
    match agentik_dir(state_dir) {
        Some(d) => Some(join(d, "daemon.json")),
        None => None,
    }
}

} // verus!
