//! Network port settings: a port is written in decimal, as `u16`'s `FromStr` reads it.
use vstd::prelude::*;
use vstd::utf8::encode_utf8;

verus! {

/// The port the event stream listens on when none is set.
pub const DEFAULT_EVENT_PORT: u16 = 5555;
/// The port orders are taken on when none is set.
pub const DEFAULT_ORDER_PORT: u16 = 5556;
/// The port metrics are served on when none is set.
pub const DEFAULT_METRICS_PORT: u16 = 9090;

/// `b` is an ASCII decimal digit.
pub open spec fn is_digit(b: u8) -> bool {
    48 <= b <= 57
}

/// Every byte of `s` is a decimal digit.
pub open spec fn all_digits(s: Seq<u8>) -> bool {
    forall|i: int| 0 <= i < s.len() ==> is_digit(#[trigger] s[i])
}

/// The number that the decimal digits `s` write, most significant first.
pub open spec fn digits_value(s: Seq<u8>) -> int
    decreases s.len(),
{
    if s.len() == 0 {
        0
    } else {
        digits_value(s.drop_last()) * 10 + (s.last() - 48)
    }
}

/// The digits of a port: the text without one leading `+`.
pub open spec fn port_digits(s: Seq<u8>) -> Seq<u8> {
    if s.len() > 0 && s[0] == 43 { s.drop_first() } else { s }
}

/// The port that the bytes `s` write: at least one decimal digit after an
/// optional `+`, with a value that fits in `u16`; `None` otherwise.
pub open spec fn parsed_port(s: Seq<u8>) -> Option<u16> {
    let d = port_digits(s);
    if d.len() > 0 && all_digits(d) && digits_value(d) <= u16::MAX {
        Some(digits_value(d) as u16)
    } else {
        None
    }
}

/// The port set by `setting` (`None`: not set), `default` when unset.
pub open spec fn port_setting(setting: Option<String>, default: u16) -> Option<u16> {
    match setting {
        Some(s) => parsed_port(encode_utf8(s@)),
        None => Some(default),
    }
}

/// A longer run of digits writes a number at least as large.
proof fn lemma_digits_value_grows(s: Seq<u8>, j: int)
    requires
        0 <= j <= s.len(),
        all_digits(s),
    ensures
        digits_value(s.take(j)) <= digits_value(s),
        digits_value(s) >= 0,
    decreases s.len(),
{
    if s.len() > 0 {
        let t = s.drop_last();
        assert(all_digits(t));
        if j < s.len() {
            assert(s.take(j) =~= t.take(j));
            lemma_digits_value_grows(t, j);
        } else {
            assert(s.take(j) =~= s);
            lemma_digits_value_grows(t, 0);
        }
    } else {
        assert(s.take(j) =~= s);
    }
}

/// Reads a port from `text` as `u16`'s `FromStr` does: decimal digits after
/// an optional `+`, the value at most 65535. `None` when `text` is not such.
pub fn parse_port(text: &str) -> (r: Option<u16>)
    ensures
        r == parsed_port(encode_utf8(text@)),
{
    let b = text.as_bytes();
    let ghost s = b@;
    let start: usize = if b.len() > 0 && b[0] == 43 { 1 } else { 0 };
    let ghost d = port_digits(s);
    assert(d =~= s.subrange(start as int, s.len() as int));
    if start >= b.len() {
        return None;
    }
    let mut i: usize = start;
    let mut v: u32 = 0;
    while i < b.len()
        invariant
            s == b@,
            s == encode_utf8(text@),
            d == port_digits(s),
            d == s.subrange(start as int, s.len() as int),
            start <= i <= b.len(),
            all_digits(s.subrange(start as int, i as int)),
            v == digits_value(s.subrange(start as int, i as int)),
            v <= u16::MAX,
        decreases b.len() - i,
    {
        let c = b[i];
        let ghost pre = s.subrange(start as int, i as int);
        let ghost ext = s.subrange(start as int, i + 1);
        assert(ext.drop_last() =~= pre);
        if c < 48 || c > 57 {
            assert(d[i - start] == c);
            assert(!is_digit(d[i - start]));
            return None;
        }
        let nv: u32 = v * 10 + (c - 48) as u32;
        assert(all_digits(ext)) by {
            assert forall|k: int| 0 <= k < ext.len() implies is_digit(#[trigger] ext[k]) by {
                if k < pre.len() {
                    assert(ext[k] == pre[k]);
                }
            }
        }
        if nv > 65535 {
            proof {
                if all_digits(d) {
                    lemma_digits_value_grows(d, i + 1 - start);
                    assert(d.take(i + 1 - start) =~= ext);
                }
            }
            return None;
        }
        v = nv;
        i = i + 1;
    }
    assert(s.subrange(start as int, i as int) =~= d);
    Some(v as u16)
}

/// The event and order ports: the settings `event_port` and `order_port`
/// (`None`: not set) read as ports, the defaults where unset. `None` when
/// either setting is not a port.
pub fn get_ports(event_port: Option<String>, order_port: Option<String>) -> (r: Option<(u16, u16)>)
    ensures
        r == (match (port_setting(event_port, DEFAULT_EVENT_PORT),
            port_setting(order_port, DEFAULT_ORDER_PORT)) {
            (Some(e), Some(o)) => Some((e, o)),
            _ => None,
        }),
{
    let event = match &event_port {
        Some(s) => parse_port(s.as_str()),
        None => Some(DEFAULT_EVENT_PORT),
    };
    let order = match &order_port {
        Some(s) => parse_port(s.as_str()),
        None => Some(DEFAULT_ORDER_PORT),
    };
    match (event, order) {
        (Some(e), Some(o)) => Some((e, o)),
        _ => None,
    }
}

/// The metrics port: the setting `metrics_port` (`None`: not set) read as a
/// port, the default where it is unset or not a port.
pub fn get_metrics_port(metrics_port: Option<String>) -> (r: u16)
    ensures
        r == (match port_setting(metrics_port, DEFAULT_METRICS_PORT) {
            Some(p) => p,
            None => DEFAULT_METRICS_PORT,
        }),
{
    let p = match &metrics_port {
        Some(s) => parse_port(s.as_str()),
        None => Some(DEFAULT_METRICS_PORT),
    };
    match p {
        Some(p) => p,
        None => DEFAULT_METRICS_PORT,
    }
}

} // verus!
