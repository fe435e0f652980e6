//! Origin keys: the canonical `scheme://host[:port]/` form of a locator.
use vstd::prelude::*;
use vstd::string::StringExecFns;

verus! {

/// The parts of a parsed locator that decide its origin.
pub struct Locator {
    pub scheme: String,
    pub host: Option<String>,
    pub port: Option<u16>,
}

/// The decimal digit character for `d`, which is below 10.
pub open spec fn digit_char(d: nat) -> char {
    ('0' as nat + d) as char
}

/// The decimal form of `n`, without leading zeros.
pub open spec fn decimal(n: nat) -> Seq<char>
    decreases n,
{
    if n < 10 {
        seq![digit_char(n)]
    } else {
        decimal(n / 10).push(digit_char(n % 10))
    }
}

/// The origin key of a locator with these parts: the scheme, `://`, the host
/// (empty where there is none), `:` and the port where there is one, and `/`.
pub open spec fn origin_of(scheme: Seq<char>, host: Option<Seq<char>>, port: Option<u16>) -> Seq<char> {
    let h = match host {
        Some(h) => h,
        None => Seq::empty(),
    };
    let p = match port {
        Some(n) => seq![':'] + decimal(n as nat),
        None => Seq::empty(),
    };
    scheme + seq![':', '/', '/'] + h + p + seq!['/']
}

impl Locator {
    /// The origin key of this locator.
    pub open spec fn origin(&self) -> Seq<char> {
        origin_of(
            self.scheme@,
            match self.host {
                Some(h) => Some(h@),
                None => None,
            },
            self.port,
        )
    }
}

fn digit_str(d: u16) -> (r: &'static str)
    requires
        d < 10,
    ensures
        r@ == seq![digit_char(d as nat)],
{
    proof {
        reveal_strlit("0");
        reveal_strlit("1");
        reveal_strlit("2");
        reveal_strlit("3");
        reveal_strlit("4");
        reveal_strlit("5");
        reveal_strlit("6");
        reveal_strlit("7");
        reveal_strlit("8");
        reveal_strlit("9");
    }
    let r = match d {
        0 => "0",
        1 => "1",
        2 => "2",
        3 => "3",
        4 => "4",
        5 => "5",
        6 => "6",
        7 => "7",
        8 => "8",
        _ => "9",
    };
    assert(r@ =~= seq![digit_char(d as nat)]);
    r
}

fn append_decimal(s: &mut String, n: u16)
    ensures
        final(s)@ == old(s)@ + decimal(n as nat),
    decreases n,
{
    if n >= 10 {
        append_decimal(s, n / 10);
    }
    s.append(digit_str(n % 10));
    assert(final(s)@ =~= old(s)@ + decimal(n as nat));
}

/// The origin key of `url`: `scheme://host[:port]/`, with an empty host where
/// the locator has none and no port segment where it has no port. Path, query
/// and fragment play no part.
pub fn get_origin_as_string(url: &Locator) -> (r: String)
    ensures
        r@ == url.origin(),
{
    let mut origin = url.scheme.clone();
    proof {
        reveal_strlit("://");
        reveal_strlit(":");
        reveal_strlit("/");
    }
    origin.append("://");
    match &url.host {
        Some(h) => origin.append(h.as_str()),
        None => {},
    }
    match url.port {
        Some(p) => {
            origin.append(":");
            append_decimal(&mut origin, p);
        },
        None => {},
    }
    origin.append("/");
    assert(origin@ =~= url.origin());
    origin
}

} // verus!
