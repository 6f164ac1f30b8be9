//! Bind and target specifications: `host:ports`, where `ports` is a comma
//! separated list of ports and inclusive `start-end` ranges.
use vstd::prelude::*;

use crate::text::{
    chars_of, decimal, find_first_char, find_last_char, push_decimal, lemma_split_nonempty, lemma_split_join, parse_u16, lemma_decimal, lemma_find_first, lemma_find_last,
    lemma_parse_decimal, lemma_split_without_sep, lemma_trim_end_take, lemma_trim_start_skip,
    all_digits, is_digit, is_whitespace, find_first, find_last, trim_start, trim_end, parse_u16_chars,
    slice_chars, split, split_once, split_ranges, string_of, trim, trim_chars, rsplit_once,
};

verus! {

/// Why a specification was refused, over character sequences.
pub enum ConfigFault {
    InvalidPort(Seq<char>),
    ZeroPort(Seq<char>),
    EmptySegment(Seq<char>),
    ReversedRange(Seq<char>),
    NotHostPort(Seq<char>),
    MissingHost(Seq<char>),
    SizeMismatch(nat, nat),
}

/// Why a specification was refused. Each variant carries the text that the
/// message about it names.
#[derive(Debug)]
pub enum ConfigError {
    /// A port that is not a decimal number from 0 to 65535.
    InvalidPort(String),
    /// A port that reads as 0.
    ZeroPort(String),
    /// A port list with an empty element; carries the whole list.
    EmptySegment(String),
    /// A range whose start is above its end; carries the range.
    ReversedRange(String),
    /// An endpoint without a `:`; carries the endpoint.
    NotHostPort(String),
    /// An endpoint with nothing before its last `:`; carries the endpoint.
    MissingHost(String),
    /// Several binds and several targets, in different numbers.
    SizeMismatch(usize, usize),
}

impl View for ConfigError {
    type V = ConfigFault;

    open spec fn view(&self) -> ConfigFault {
        match self {
            ConfigError::InvalidPort(s) => ConfigFault::InvalidPort(s@),
            ConfigError::ZeroPort(s) => ConfigFault::ZeroPort(s@),
            ConfigError::EmptySegment(s) => ConfigFault::EmptySegment(s@),
            ConfigError::ReversedRange(s) => ConfigFault::ReversedRange(s@),
            ConfigError::NotHostPort(s) => ConfigFault::NotHostPort(s@),
            ConfigError::MissingHost(s) => ConfigFault::MissingHost(s@),
            ConfigError::SizeMismatch(b, t) => ConfigFault::SizeMismatch(*b as nat, *t as nat),
        }
    }
}

// ---------------------------------------------------------------------
// Specifications
// ---------------------------------------------------------------------

/// A single port: a 16-bit decimal number other than 0.
pub open spec fn port_value(v: Seq<char>) -> Result<u16, ConfigFault> {
    match parse_u16(v) {
        None => Err(ConfigFault::InvalidPort(v)),
        Some(p) => if p == 0 {
            Err(ConfigFault::ZeroPort(v))
        } else {
            Ok(p)
        },
    }
}

/// The ports from `lo` to `hi`, both included, in increasing order.
pub open spec fn port_range(lo: u16, hi: u16) -> Seq<u16> {
    Seq::new((hi - lo + 1) as nat, |k: int| (lo + k) as u16)
}

/// The ports one element of a port list stands for. `whole` is the list,
/// which an empty element is reported with.
pub open spec fn segment_ports(part: Seq<char>, whole: Seq<char>) -> Result<Seq<u16>, ConfigFault> {
    let p = trim(part);
    if p.len() == 0 {
        Err(ConfigFault::EmptySegment(whole))
    } else {
        match split_once(p, '-') {
            Some((a, b)) => match port_value(trim(a)) {
                Err(e) => Err(e),
                Ok(lo) => match port_value(trim(b)) {
                    Err(e) => Err(e),
                    Ok(hi) => if lo > hi {
                        Err(ConfigFault::ReversedRange(p))
                    } else {
                        Ok(port_range(lo, hi))
                    },
                },
            },
            None => match port_value(p) {
                Err(e) => Err(e),
                Ok(x) => Ok(seq![x]),
            },
        }
    }
}

/// The ports of the elements `pieces`, in order; the first refused element
/// decides the error.
pub open spec fn ports_of_pieces(pieces: Seq<Seq<char>>, whole: Seq<char>) -> Result<
    Seq<u16>,
    ConfigFault,
>
    decreases pieces.len(),
{
    if pieces.len() == 0 {
        Ok(Seq::<u16>::empty())
    } else {
        match ports_of_pieces(pieces.drop_last(), whole) {
            Err(e) => Err(e),
            Ok(a) => match segment_ports(pieces.last(), whole) {
                Err(e) => Err(e),
                Ok(b) => Ok(a + b),
            },
        }
    }
}

/// The ports that a port list such as `80,443,8000-8002` stands for.
pub open spec fn port_list(spec: Seq<char>) -> Result<Seq<u16>, ConfigFault> {
    ports_of_pieces(split(spec, ','), spec)
}

/// The text `host:port`, the port in decimal.
pub open spec fn endpoint(host: Seq<char>, port: u16) -> Seq<char> {
    host + seq![':'] + decimal(port as nat)
}

/// The endpoints that `host:ports` stands for, one per port, in order.
/// The host is what comes before the last `:`.
pub open spec fn endpoint_list(spec: Seq<char>) -> Result<Seq<Seq<char>>, ConfigFault> {
    match rsplit_once(spec, ':') {
        None => Err(ConfigFault::NotHostPort(spec)),
        Some((host, ports)) => if host.len() == 0 {
            Err(ConfigFault::MissingHost(spec))
        } else {
            match port_list(ports) {
                Err(e) => Err(e),
                Ok(ps) => Ok(ps.map_values(|p: u16| endpoint(host, p))),
            }
        },
    }
}

/// Pairs binds with targets: one to one when they are as many, otherwise a
/// single bind or a single target serves all of the other side.
pub open spec fn pairing(binds: Seq<Seq<char>>, targets: Seq<Seq<char>>) -> Result<
    Seq<(Seq<char>, Seq<char>)>,
    ConfigFault,
> {
    if binds.len() == targets.len() {
        Ok(Seq::new(binds.len(), |i: int| (binds[i], targets[i])))
    } else if binds.len() == 1 {
        Ok(targets.map_values(|t: Seq<char>| (binds[0], t)))
    } else if targets.len() == 1 {
        Ok(binds.map_values(|b: Seq<char>| (b, targets[0])))
    } else {
        Err(ConfigFault::SizeMismatch(binds.len(), targets.len()))
    }
}

/// The (bind, target) pairs for a bind and a target specification.
pub open spec fn bind_target_pairs(bind: Seq<char>, target: Seq<char>) -> Result<
    Seq<(Seq<char>, Seq<char>)>,
    ConfigFault,
> {
    match endpoint_list(bind) {
        Err(e) => Err(e),
        Ok(b) => match endpoint_list(target) {
            Err(e) => Err(e),
            Ok(t) => pairing(b, t),
        },
    }
}

/// The characters of each string.
pub open spec fn strings_view(v: Seq<String>) -> Seq<Seq<char>> {
    v.map_values(|s: String| s@)
}

/// The characters of each string of each pair.
pub open spec fn pairs_view(v: Seq<(String, String)>) -> Seq<(Seq<char>, Seq<char>)> {
    v.map_values(|p: (String, String)| (p.0@, p.1@))
}

// ---------------------------------------------------------------------
// Lemmas
// ---------------------------------------------------------------------

proof fn lemma_pieces_err(pieces: Seq<Seq<char>>, whole: Seq<char>, j: int)
    requires
        0 <= j <= pieces.len(),
        ports_of_pieces(pieces.take(j), whole) is Err,
    ensures
        ports_of_pieces(pieces, whole) == ports_of_pieces(pieces.take(j), whole),
    decreases pieces.len(),
{
    if j == pieces.len() {
        assert(pieces.take(j) == pieces);
    } else {
        let t = pieces.drop_last();
        assert(t.take(j) == pieces.take(j));
        lemma_pieces_err(t, whole, j);
    }
}

proof fn lemma_segment_ports_positive(part: Seq<char>, whole: Seq<char>)
    ensures
        segment_ports(part, whole) matches Ok(b) ==> b.len() >= 1 && forall|k: int|
            0 <= k < b.len() ==> #[trigger] b[k] > 0,
{
}

proof fn lemma_pieces_positive(pieces: Seq<Seq<char>>, whole: Seq<char>)
    ensures
        ports_of_pieces(pieces, whole) matches Ok(a) ==> (a.len() >= 1 || pieces.len() == 0)
            && forall|k: int| 0 <= k < a.len() ==> #[trigger] a[k] > 0,
    decreases pieces.len(),
{
    if pieces.len() > 0 {
        lemma_pieces_positive(pieces.drop_last(), whole);
        lemma_segment_ports_positive(pieces.last(), whole);
        if let Ok(a) = ports_of_pieces(pieces, whole) {
            let x = ports_of_pieces(pieces.drop_last(), whole)->Ok_0;
            let y = segment_ports(pieces.last(), whole)->Ok_0;
            assert(a == x + y);
            assert forall|k: int| 0 <= k < a.len() implies #[trigger] a[k] > 0 by {
                if k < x.len() {
                    assert(a[k] == x[k]);
                } else {
                    assert(a[k] == y[k - x.len()]);
                }
            }
        }
    }
}

/// An accepted port list stands for at least one port, and never for 0.
pub proof fn lemma_port_list_nonempty(spec: Seq<char>)
    ensures
        port_list(spec) matches Ok(ports) ==> ports.len() >= 1 && forall|k: int|
            0 <= k < ports.len() ==> #[trigger] ports[k] > 0,
{
    lemma_split_nonempty(spec, ',');
    lemma_pieces_positive(split(spec, ','), spec);
}

proof fn lemma_pieces_any_whole(pieces: Seq<Seq<char>>, w1: Seq<char>, w2: Seq<char>)
    requires
        ports_of_pieces(pieces, w1) is Ok,
    ensures
        ports_of_pieces(pieces, w2) == ports_of_pieces(pieces, w1),
    decreases pieces.len(),
{
    if pieces.len() > 0 {
        lemma_pieces_any_whole(pieces.drop_last(), w1, w2);
    }
}

proof fn lemma_pieces_concat(p: Seq<Seq<char>>, q: Seq<Seq<char>>, w: Seq<char>)
    requires
        ports_of_pieces(p, w) is Ok,
        ports_of_pieces(q, w) is Ok,
    ensures
        ports_of_pieces(p + q, w) == Ok::<Seq<u16>, ConfigFault>(
            ports_of_pieces(p, w)->Ok_0 + ports_of_pieces(q, w)->Ok_0,
        ),
    decreases q.len(),
{
    if q.len() == 0 {
        assert(p + q == p);
        assert(ports_of_pieces(q, w)->Ok_0 == Seq::<u16>::empty());
        assert(ports_of_pieces(p, w)->Ok_0 + Seq::<u16>::empty() == ports_of_pieces(p, w)->Ok_0);
    } else {
        let qd = q.drop_last();
        lemma_pieces_concat(p, qd, w);
        assert((p + q).drop_last() == p + qd);
        assert((p + q).last() == q.last());
        let x = ports_of_pieces(p, w)->Ok_0;
        let y = ports_of_pieces(qd, w)->Ok_0;
        let z = segment_ports(q.last(), w)->Ok_0;
        assert(x + y + z == x + (y + z));
    }
}

/// Joining two accepted port lists with a comma lists the ports of the
/// first, then those of the second.
pub proof fn lemma_port_list_join(a: Seq<char>, b: Seq<char>)
    requires
        port_list(a) is Ok,
        port_list(b) is Ok,
    ensures
        port_list(a + seq![','] + b) == Ok::<Seq<u16>, ConfigFault>(
            port_list(a)->Ok_0 + port_list(b)->Ok_0,
        ),
{
    let j = a + seq![','] + b;
    lemma_split_join(a, b, ',');
    lemma_pieces_any_whole(split(a, ','), a, j);
    lemma_pieces_any_whole(split(b, ','), b, j);
    lemma_pieces_concat(split(a, ','), split(b, ','), j);
}

/// The decimal form of a port other than 0 reads back as that port.
pub proof fn lemma_port_value_decimal(port: u16)
    requires
        port > 0,
    ensures
        port_value(decimal(port as nat)) == Ok::<u16, ConfigFault>(port),
{
    lemma_parse_decimal(port);
}

/// A single `host:port` endpoint, as expansion writes it, expands to itself.
pub proof fn lemma_endpoint_expands_to_itself(host: Seq<char>, port: u16)
    requires
        host.len() > 0,
        port > 0,
    ensures
        endpoint_list(endpoint(host, port)) == Ok::<Seq<Seq<char>>, ConfigFault>(
            seq![endpoint(host, port)],
        ),
{
    let d = decimal(port as nat);
    let e = endpoint(host, port);
    let h = host.len() as int;
    lemma_decimal(port as nat);
    assert(forall|j: int| 0 <= j < d.len() ==> #[trigger] is_digit(d[j]));
    assert forall|j: int| h < j < e.len() implies e[j] != ':' by {
        assert(e[j] == d[j - h - 1]);
        assert(is_digit(d[j - h - 1]));
    }
    assert(e[h] == ':');
    lemma_find_last(e, ':');
    assert(find_last(e, ':') == Some(h));
    assert(e.take(h) == host);
    assert(e.skip(h + 1) == d);
    // the port text is one element, a bare port without whitespace or '-'
    assert forall|j: int| 0 <= j < d.len() implies d[j] != ',' && d[j] != '-' by {
        assert(is_digit(d[j]));
    }
    lemma_split_without_sep(d, ',');
    assert(!is_whitespace(d[0])) by {
        assert(is_digit(d[0]));
    }
    assert(!is_whitespace(d[d.len() - 1])) by {
        assert(is_digit(d[d.len() - 1]));
    }
    lemma_trim_start_skip(d, 0);
    assert(d.skip(0) == d);
    lemma_trim_end_take(d, d.len() as int);
    assert(d.take(d.len() as int) == d);
    assert(trim(d) == d);
    lemma_find_first(d, '-');
    assert(split_once(d, '-') is None);
    lemma_port_value_decimal(port);
    assert(segment_ports(d, d) == Ok::<Seq<u16>, ConfigFault>(seq![port]));
    let pieces = seq![d];
    assert(pieces.drop_last() == Seq::<Seq<char>>::empty());
    assert(pieces.last() == d);
    assert(ports_of_pieces(Seq::<Seq<char>>::empty(), d) == Ok::<Seq<u16>, ConfigFault>(
        Seq::<u16>::empty(),
    ));
    assert(ports_of_pieces(pieces, d) == Ok::<Seq<u16>, ConfigFault>(
        Seq::<u16>::empty() + seq![port],
    ));
    assert(Seq::<u16>::empty() + seq![port] == seq![port]);
    assert(port_list(d) == Ok::<Seq<u16>, ConfigFault>(seq![port]));
    assert(seq![port].map_values(|p: u16| endpoint(host, p)) == seq![e]);
}

/// Expansion is idempotent: each endpoint it produces expands to itself.
pub proof fn lemma_expand_idempotent(spec: Seq<char>)
    ensures
        endpoint_list(spec) matches Ok(es) ==> forall|k: int|
            0 <= k < es.len() ==> endpoint_list(#[trigger] es[k]) == Ok::<
                Seq<Seq<char>>,
                ConfigFault,
            >(seq![es[k]]),
{
    if let Some((host, ports)) = rsplit_once(spec, ':') {
        if host.len() > 0 {
            lemma_port_list_nonempty(ports);
            if let Ok(ps) = port_list(ports) {
                let es = ps.map_values(|p: u16| endpoint(host, p));
                assert forall|k: int| 0 <= k < es.len() implies endpoint_list(#[trigger] es[k])
                    == Ok::<Seq<Seq<char>>, ConfigFault>(seq![es[k]]) by {
                    assert(ps[k] > 0);
                    lemma_endpoint_expands_to_itself(host, ps[k]);
                }
            }
        }
    }
}

/// An accepted endpoint specification stands for at least one endpoint.
pub proof fn lemma_endpoint_list_nonempty(spec: Seq<char>)
    ensures
        endpoint_list(spec) matches Ok(es) ==> es.len() >= 1,
{
    if let Some((host, ports)) = rsplit_once(spec, ':') {
        lemma_port_list_nonempty(ports);
    }
}

/// An accepted pairing has as many pairs as the longer side; sides of
/// equal length are paired position by position, and a side of one
/// endpoint is paired with each endpoint of the other side in order.
pub proof fn lemma_pairing_shape(binds: Seq<Seq<char>>, targets: Seq<Seq<char>>)
    requires
        binds.len() >= 1,
        targets.len() >= 1,
    ensures
        pairing(binds, targets) matches Ok(ps) ==> {
            &&& ps.len() == if binds.len() >= targets.len() {
                binds.len()
            } else {
                targets.len()
            }
            &&& forall|k: int|
                0 <= k < ps.len() ==> binds.contains(#[trigger] ps[k].0) && targets.contains(
                    ps[k].1,
                )
            &&& binds.len() == targets.len() ==> forall|k: int|
                0 <= k < ps.len() ==> #[trigger] ps[k] == (binds[k], targets[k])
            &&& binds.len() != targets.len() && binds.len() == 1 ==> forall|k: int|
                0 <= k < ps.len() ==> #[trigger] ps[k] == (binds[0], targets[k])
            &&& binds.len() != targets.len() && targets.len() == 1 ==> forall|k: int|
                0 <= k < ps.len() ==> #[trigger] ps[k] == (binds[k], targets[0])
        },
        pairing(binds, targets) is Err <==> (binds.len() != targets.len() && binds.len() != 1
            && targets.len() != 1),
{
    if let Ok(ps) = pairing(binds, targets) {
        assert(ps.len() == if binds.len() >= targets.len() {
            binds.len()
        } else {
            targets.len()
        });
        assert forall|k: int| 0 <= k < ps.len() implies binds.contains(#[trigger] ps[k].0)
            && targets.contains(ps[k].1) by {
            if binds.len() == targets.len() {
                assert(binds[k] == ps[k].0);
                assert(targets[k] == ps[k].1);
            } else if binds.len() == 1 {
                assert(binds[0] == ps[k].0);
                assert(targets[k] == ps[k].1);
            } else {
                assert(binds[k] == ps[k].0);
                assert(targets[0] == ps[k].1);
            }
        }
    }
}

/// A decimal form is all digits, so it holds no separator and no
/// whitespace, and trims, splits and reads as itself.
proof fn lemma_decimal_plain(n: u16)
    ensures
        ({
            let d = decimal(n as nat);
            &&& d.len() >= 1
            &&& forall|j: int| 0 <= j < d.len() ==> #[trigger] is_digit(d[j])
            &&& forall|j: int|
                0 <= j < d.len() ==> d[j] != ',' && d[j] != '-' && d[j] != ':'
                    && !is_whitespace(#[trigger] d[j])
            &&& trim(d) == d
            &&& split(d, ',') == seq![d]
            &&& find_first(d, '-') is None
            &&& parse_u16(d) == Some(n)
        }),
{
    let d = decimal(n as nat);
    lemma_decimal(n as nat);
    assert(forall|j: int| 0 <= j < d.len() ==> #[trigger] is_digit(d[j]));
    assert forall|j: int| 0 <= j < d.len() implies d[j] != ',' && d[j] != '-' && d[j] != ':'
        && !is_whitespace(#[trigger] d[j]) by {
        assert(is_digit(d[j]));
    }
    lemma_split_without_sep(d, ',');
    assert(!is_whitespace(d[0]));
    assert(!is_whitespace(d[d.len() - 1]));
    lemma_trim_start_skip(d, 0);
    assert(d.skip(0) == d);
    lemma_trim_end_take(d, d.len() as int);
    assert(d.take(d.len() as int) == d);
    lemma_find_first(d, '-');
    lemma_parse_decimal(n);
}

/// The range `lo-hi`, with `0 < lo <= hi`, stands for exactly the ports
/// from `lo` to `hi`, both included, in increasing order.
pub proof fn lemma_range_ports(lo: u16, hi: u16)
    requires
        0 < lo <= hi,
    ensures
        ({
            let t = decimal(lo as nat) + seq!['-'] + decimal(hi as nat);
            &&& port_list(t) is Ok
            &&& port_list(t)->Ok_0.len() == hi - lo + 1
            &&& forall|k: int|
                0 <= k < port_list(t)->Ok_0.len() ==> #[trigger] port_list(t)->Ok_0[k] == lo + k
            &&& forall|p: u16| lo <= p <= hi ==> #[trigger] port_list(t)->Ok_0.contains(p)
            &&& port_list(t)->Ok_0[0] == lo
            &&& port_list(t)->Ok_0.last() == hi
        }),
{
    let a = decimal(lo as nat);
    let b = decimal(hi as nat);
    let t = a + seq!['-'] + b;
    lemma_decimal_plain(lo);
    lemma_decimal_plain(hi);
    let n = a.len() as int;
    assert forall|j: int| 0 <= j < t.len() implies t[j] != ',' by {
        if j < n {
            assert(t[j] == a[j]);
        } else if j > n {
            assert(t[j] == b[j - n - 1]);
        }
    }
    lemma_split_without_sep(t, ',');
    assert(t[0] == a[0]);
    assert(t[t.len() - 1] == b[b.len() - 1]);
    assert(!is_whitespace(t[0]));
    assert(!is_whitespace(t[t.len() - 1]));
    lemma_trim_start_skip(t, 0);
    assert(t.skip(0) == t);
    lemma_trim_end_take(t, t.len() as int);
    assert(t.take(t.len() as int) == t);
    assert(trim(t) == t);
    assert forall|j: int| 0 <= j < n implies t[j] != '-' by {
        assert(t[j] == a[j]);
    }
    assert(t[n] == '-');
    lemma_find_first(t, '-');
    assert(find_first(t, '-') == Some(n));
    assert(t.take(n) == a);
    assert(t.skip(n + 1) == b);
    lemma_port_value_decimal(lo);
    lemma_port_value_decimal(hi);
    assert(segment_ports(t, t) == Ok::<Seq<u16>, ConfigFault>(port_range(lo, hi)));
    let pieces = seq![t];
    assert(pieces.drop_last() == Seq::<Seq<char>>::empty());
    assert(pieces.last() == t);
    assert(ports_of_pieces(Seq::<Seq<char>>::empty(), t) == Ok::<Seq<u16>, ConfigFault>(
        Seq::<u16>::empty(),
    ));
    assert(Seq::<u16>::empty() + port_range(lo, hi) == port_range(lo, hi));
    let r = port_range(lo, hi);
    assert(port_list(t) == Ok::<Seq<u16>, ConfigFault>(r));
    assert forall|p: u16| lo <= p <= hi implies #[trigger] r.contains(p) by {
        assert(r[p - lo] == p);
    }
}

/// When the last `:` of `spec` is at `i`, with a host before it, every
/// expanded endpoint starts with that same host and `:`, and what follows
/// is the decimal form of the port in the same position of the port list.
pub proof fn lemma_endpoint_texts(spec: Seq<char>, i: int)
    requires
        0 < i < spec.len(),
        spec[i] == ':',
        forall|j: int| i < j < spec.len() ==> spec[j] != ':',
    ensures
        endpoint_list(spec) matches Ok(es) ==> {
            &&& port_list(spec.skip(i + 1)) is Ok
            &&& es.len() == port_list(spec.skip(i + 1))->Ok_0.len()
            &&& forall|k: int|
                0 <= k < es.len() ==> {
                    &&& (#[trigger] es[k]).len() > i + 1
                    &&& es[k].take(i) == spec.take(i)
                    &&& es[k][i] == ':'
                    &&& all_digits(es[k].skip(i + 1))
                    &&& parse_u16(es[k].skip(i + 1)) == Some(port_list(spec.skip(i + 1))->Ok_0[k])
                }
        },
{
    lemma_find_last(spec, ':');
    assert(find_last(spec, ':') == Some(i));
    let host = spec.take(i);
    if let Ok(es) = endpoint_list(spec) {
        let ps = port_list(spec.skip(i + 1))->Ok_0;
        assert forall|k: int| 0 <= k < es.len() implies {
            &&& (#[trigger] es[k]).len() > i + 1
            &&& es[k].take(i) == spec.take(i)
            &&& es[k][i] == ':'
            &&& all_digits(es[k].skip(i + 1))
            &&& parse_u16(es[k].skip(i + 1)) == Some(ps[k])
        } by {
            let d = decimal(ps[k] as nat);
            lemma_decimal_plain(ps[k]);
            assert(es[k] == host + seq![':'] + d);
            assert(es[k].take(i) == host);
            assert(es[k].skip(i + 1) == d);
        }
    }
}

/// The pairs for a bind and a target specification join their expanded
/// endpoints position by position when they are as many, and otherwise
/// share the single endpoint of one side with each of the other, in order.
pub proof fn lemma_bind_target_pairs_positions(bind: Seq<char>, target: Seq<char>)
    ensures
        bind_target_pairs(bind, target) matches Ok(ps) ==> {
            &&& endpoint_list(bind) is Ok
            &&& endpoint_list(target) is Ok
            &&& ({
                let bs = endpoint_list(bind)->Ok_0;
                let ts = endpoint_list(target)->Ok_0;
                &&& bs.len() == ts.len() ==> ps.len() == bs.len() && forall|k: int|
                    0 <= k < ps.len() ==> #[trigger] ps[k] == (bs[k], ts[k])
                &&& bs.len() != ts.len() && bs.len() == 1 ==> ps.len() == ts.len() && forall|k: int|
                    0 <= k < ps.len() ==> #[trigger] ps[k] == (bs[0], ts[k])
                &&& bs.len() != ts.len() && ts.len() == 1 ==> ps.len() == bs.len() && forall|k: int|
                    0 <= k < ps.len() ==> #[trigger] ps[k] == (bs[k], ts[0])
            })
        },
{
    lemma_endpoint_list_nonempty(bind);
    lemma_endpoint_list_nonempty(target);
    if let Ok(ps) = bind_target_pairs(bind, target) {
        lemma_pairing_shape(endpoint_list(bind)->Ok_0, endpoint_list(target)->Ok_0);
    }
}

// ---------------------------------------------------------------------
// Executable functions
// ---------------------------------------------------------------------

fn port_of_chars(v: &[char]) -> (res: Result<u16, ConfigError>)
    ensures
        match res {
            Ok(p) => port_value(v@) == Ok::<u16, ConfigFault>(p),
            Err(e) => port_value(v@) == Err::<u16, ConfigFault>(e@),
        },
{
    match parse_u16_chars(v) {
        None => Err(ConfigError::InvalidPort(string_of(v))),
        Some(p) => if p == 0 {
            Err(ConfigError::ZeroPort(string_of(v)))
        } else {
            Ok(p)
        },
    }
}

/// Reads one port, as `parse_port` does, and says why when it cannot.
pub fn try_parse_port(value: &str) -> (res: Result<u16, ConfigError>)
    ensures
        match res {
            Ok(p) => port_value(value@) == Ok::<u16, ConfigFault>(p),
            Err(e) => port_value(value@) == Err::<u16, ConfigFault>(e@),
        },
{
    let v = chars_of(value);
    port_of_chars(&v)
}

/// Reads a port: a decimal number from 1 to 65535, with an optional `+`.
pub fn parse_port(value: &str) -> (res: u16)
    requires
        port_value(value@) is Ok,
    ensures
        port_value(value@) == Ok::<u16, ConfigFault>(res),
        res > 0,
{
    match try_parse_port(value) {
        Ok(p) => p,
        Err(_) => {
            proof {
                assert(false);
            }
            0
        },
    }
}

fn push_port_range(out: &mut Vec<u16>, lo: u16, hi: u16)
    requires
        lo <= hi,
    ensures
        final(out)@ == old(out)@ + port_range(lo, hi),
{
    let ghost start = out@;
    let mut p: u32 = lo as u32;
    while p <= hi as u32
        invariant
            lo <= p <= hi as u32 + 1,
            lo <= hi,
            out@ == start + port_range(lo, (p - 1) as u16).take(p - lo),
        decreases hi as u32 + 1 - p,
    {
        let ghost before = out@;
        out.push(p as u16);
        assert(port_range(lo, p as u16).take(p + 1 - lo) == port_range(lo, (p - 1) as u16).take(
            p - lo,
        ).push(p as u16));
        p = p + 1;
    }
    assert(port_range(lo, (p - 1) as u16).take(p - lo) == port_range(lo, hi));
}

fn segment_ports_exec(part: &[char], whole: &[char]) -> (res: Result<Vec<u16>, ConfigError>)
    ensures
        match res {
            Ok(v) => segment_ports(part@, whole@) == Ok::<Seq<u16>, ConfigFault>(v@),
            Err(e) => segment_ports(part@, whole@) == Err::<Seq<u16>, ConfigFault>(e@),
        },
{
    let p = trim_chars(part);
    if p.len() == 0 {
        return Err(ConfigError::EmptySegment(string_of(whole)));
    }
    match find_first_char(&p, '-') {
        Some(i) => {
            let a = slice_chars(&p, 0, i);
            let b = slice_chars(&p, i + 1, p.len());
            assert(a@ == p@.take(i as int));
            assert(b@ == p@.skip(i + 1));
            let lo = port_of_chars(&trim_chars(&a))?;
            let hi = port_of_chars(&trim_chars(&b))?;
            if lo > hi {
                return Err(ConfigError::ReversedRange(string_of(&p)));
            }
            let mut out: Vec<u16> = Vec::new();
            push_port_range(&mut out, lo, hi);
            assert(out@ == port_range(lo, hi));
            Ok(out)
        },
        None => {
            let x = port_of_chars(&p)?;
            let mut out: Vec<u16> = Vec::new();
            out.push(x);
            assert(out@ == seq![x]);
            Ok(out)
        },
    }
}

fn ports_of_chars(v: &[char]) -> (res: Result<Vec<u16>, ConfigError>)
    ensures
        match res {
            Ok(ports) => port_list(v@) == Ok::<Seq<u16>, ConfigFault>(ports@),
            Err(e) => port_list(v@) == Err::<Seq<u16>, ConfigFault>(e@),
        },
{
    let ranges = split_ranges(v, ',');
    let ghost pieces = split(v@, ',');
    let mut ports: Vec<u16> = Vec::new();
    let mut k: usize = 0;
    assert(pieces.take(0) == Seq::<Seq<char>>::empty());
    while k < ranges.len()
        invariant
            k <= ranges.len(),
            pieces == split(v@, ','),
            ranges.len() == pieces.len(),
            forall|j: int|
                #![trigger ranges@[j]]
                0 <= j < ranges.len() ==> {
                    &&& ranges@[j].0 <= ranges@[j].1 <= v.len()
                    &&& v@.subrange(ranges@[j].0 as int, ranges@[j].1 as int) == pieces[j]
                },
            ports_of_pieces(pieces.take(k as int), v@) == Ok::<Seq<u16>, ConfigFault>(ports@),
        decreases ranges.len() - k,
    {
        let (a, b) = ranges[k];
        assert(ranges@[k as int] == (a, b));
        let part = slice_chars(v, a, b);
        assert(pieces.take(k + 1).drop_last() == pieces.take(k as int));
        assert(pieces.take(k + 1).last() == pieces[k as int]);
        match segment_ports_exec(&part, v) {
            Err(e) => {
                proof {
                    lemma_pieces_err(pieces, v@, k + 1);
                }
                return Err(e);
            },
            Ok(more) => {
                let ghost before = ports@;
                let mut i: usize = 0;
                while i < more.len()
                    invariant
                        i <= more.len(),
                        ports@ == before + more@.take(i as int),
                    decreases more.len() - i,
                {
                    ports.push(more[i]);
                    assert(more@.take(i + 1) == more@.take(i as int).push(more@[i as int]));
                    i = i + 1;
                }
                assert(more@.take(more.len() as int) == more@);
            },
        }
        k = k + 1;
    }
    assert(pieces.take(pieces.len() as int) == pieces);
    Ok(ports)
}

/// Reads a port list, as `parse_ports` does, and says why when it cannot.
pub fn try_parse_ports(spec: &str) -> (res: Result<Vec<u16>, ConfigError>)
    ensures
        match res {
            Ok(ports) => port_list(spec@) == Ok::<Seq<u16>, ConfigFault>(ports@),
            Err(e) => port_list(spec@) == Err::<Seq<u16>, ConfigFault>(e@),
        },
        res matches Ok(ports) ==> ports.len() >= 1 && forall|k: int|
            0 <= k < ports.len() ==> #[trigger] ports@[k] > 0,
{
    proof {
        lemma_port_list_nonempty(spec@);
    }
    let v = chars_of(spec);
    ports_of_chars(&v)
}

/// Reads a port list such as `80,443,8000-8002` into the ports it stands
/// for, in order; whitespace around elements and range ends is ignored.
pub fn parse_ports(spec: &str) -> (res: Vec<u16>)
    requires
        port_list(spec@) is Ok,
    ensures
        port_list(spec@) == Ok::<Seq<u16>, ConfigFault>(res@),
        res.len() >= 1,
{
    match try_parse_ports(spec) {
        Ok(p) => p,
        Err(_) => {
            proof {
                assert(false);
            }
            Vec::new()
        },
    }
}

fn endpoint_string(host: &Vec<char>, port: u16) -> (res: String)
    ensures
        res@ == endpoint(host@, port),
{
    let mut cs = host.clone();
    cs.push(':');
    push_decimal(&mut cs, port);
    string_of(&cs)
}

/// Expands `host:ports`, as `expand_endpoints` does, and says why when it
/// cannot.
pub fn try_expand_endpoints(spec: &str) -> (res: Result<Vec<String>, ConfigError>)
    ensures
        match res {
            Ok(v) => endpoint_list(spec@) == Ok::<Seq<Seq<char>>, ConfigFault>(strings_view(v@)),
            Err(e) => endpoint_list(spec@) == Err::<Seq<Seq<char>>, ConfigFault>(e@),
        },
{
    let v = chars_of(spec);
    let colon = match find_last_char(&v, ':') {
        None => {
            return Err(ConfigError::NotHostPort(string_of(&v)));
        },
        Some(i) => i,
    };
    let host = slice_chars(&v, 0, colon);
    let port_spec = slice_chars(&v, colon + 1, v.len());
    assert(host@ == v@.take(colon as int));
    assert(port_spec@ == v@.skip(colon + 1));
    if host.len() == 0 {
        return Err(ConfigError::MissingHost(string_of(&v)));
    }
    let ports = ports_of_chars(&port_spec)?;
    let ghost want = ports@.map_values(|p: u16| endpoint(host@, p));
    let mut out: Vec<String> = Vec::new();
    let mut k: usize = 0;
    while k < ports.len()
        invariant
            k <= ports.len(),
            want == ports@.map_values(|p: u16| endpoint(host@, p)),
            strings_view(out@) == want.take(k as int),
        decreases ports.len() - k,
    {
        let e = endpoint_string(&host, ports[k]);
        let ghost before = out@;
        out.push(e);
        assert(strings_view(out@) == strings_view(before).push(e@));
        assert(want.take(k + 1) == want.take(k as int).push(want[k as int]));
        k = k + 1;
    }
    assert(want.take(ports.len() as int) == want);
    Ok(out)
}

/// Expands `host:ports` into one `host:port` text per port, in order. The
/// host is everything before the last `:`, so bracketed IPv6 hosts pass
/// through whole.
pub fn expand_endpoints(spec: &str) -> (res: Vec<String>)
    requires
        endpoint_list(spec@) is Ok,
    ensures
        endpoint_list(spec@) == Ok::<Seq<Seq<char>>, ConfigFault>(strings_view(res@)),
{
    match try_expand_endpoints(spec) {
        Ok(v) => v,
        Err(_) => {
            proof {
                assert(false);
            }
            Vec::new()
        },
    }
}

fn pair_lists(binds: Vec<String>, targets: Vec<String>) -> (res: Result<
    Vec<(String, String)>,
    ConfigError,
>)
    ensures
        match res {
            Ok(v) => pairing(strings_view(binds@), strings_view(targets@)) == Ok::<
                Seq<(Seq<char>, Seq<char>)>,
                ConfigFault,
            >(pairs_view(v@)),
            Err(e) => pairing(strings_view(binds@), strings_view(targets@)) == Err::<
                Seq<(Seq<char>, Seq<char>)>,
                ConfigFault,
            >(e@),
        },
{
    let ghost bv = strings_view(binds@);
    let ghost tv = strings_view(targets@);
    let ghost want = pairing(bv, tv)->Ok_0;
    if binds.len() != targets.len() && binds.len() != 1 && targets.len() != 1 {
        return Err(ConfigError::SizeMismatch(binds.len(), targets.len()));
    }
    let n: usize = if binds.len() == targets.len() {
        binds.len()
    } else if binds.len() == 1 {
        targets.len()
    } else {
        binds.len()
    };
    assert(want.len() == n);
    let mut out: Vec<(String, String)> = Vec::new();
    let mut k: usize = 0;
    while k < n
        invariant
            k <= n,
            bv == strings_view(binds@),
            tv == strings_view(targets@),
            want == pairing(bv, tv)->Ok_0,
            pairing(bv, tv) is Ok,
            want.len() == n,
            n == (if binds.len() == targets.len() {
                binds.len()
            } else if binds.len() == 1 {
                targets.len()
            } else {
                binds.len()
            }),
            binds.len() == targets.len() || binds.len() == 1 || targets.len() == 1,
            pairs_view(out@) == want.take(k as int),
        decreases n - k,
    {
        let b = if binds.len() == targets.len() {
            binds[k].clone()
        } else if binds.len() == 1 {
            binds[0].clone()
        } else {
            binds[k].clone()
        };
        let t = if binds.len() == targets.len() {
            targets[k].clone()
        } else if binds.len() == 1 {
            targets[k].clone()
        } else {
            targets[0].clone()
        };
        assert((b@, t@) == want[k as int]);
        let ghost before = out@;
        out.push((b, t));
        assert(pairs_view(out@) == pairs_view(before).push((b@, t@)));
        assert(want.take(k + 1) == want.take(k as int).push(want[k as int]));
        k = k + 1;
    }
    assert(want.take(n as int) == want);
    Ok(out)
}

/// Pairs binds with targets, as `pair_bind_targets` does, and says why
/// when it cannot.
pub fn try_pair_bind_targets(bind: &str, target: &str) -> (res: Result<
    Vec<(String, String)>,
    ConfigError,
>)
    ensures
        match res {
            Ok(v) => bind_target_pairs(bind@, target@) == Ok::<
                Seq<(Seq<char>, Seq<char>)>,
                ConfigFault,
            >(pairs_view(v@)),
            Err(e) => bind_target_pairs(bind@, target@) == Err::<
                Seq<(Seq<char>, Seq<char>)>,
                ConfigFault,
            >(e@),
        },
{
    let binds = try_expand_endpoints(bind)?;
    let targets = try_expand_endpoints(target)?;
    pair_lists(binds, targets)
}

/// The (bind, target) pairs to forward between: the two expanded lists side
/// by side when they are as long, or a single endpoint on one side shared by
/// every endpoint of the other.
pub fn pair_bind_targets(bind: &str, target: &str) -> (res: Vec<(String, String)>)
    requires
        bind_target_pairs(bind@, target@) is Ok,
    ensures
        bind_target_pairs(bind@, target@) == Ok::<Seq<(Seq<char>, Seq<char>)>, ConfigFault>(
            pairs_view(res@),
        ),
{
    match try_pair_bind_targets(bind, target) {
        Ok(v) => v,
        Err(_) => {
            proof {
                assert(false);
            }
            Vec::new()
        },
    }
}

} // verus!
