//! How an instance is reached: loopback-only by default, or deliberately exposed.

use vstd::prelude::*;
use crate::text::{
    chars_of, string_of, owned, push_text, quote, quoted, decimal, decimal_chars, split_chars,
    split_by, char_rows, lower_chars, lower_all, extend_chars, parse_uint_chars, all_digits,
    digits_value,
};

verus! {

#[derive(Debug, PartialEq, Eq)]
pub enum Exposure {
    Local,
    Exposed { public_host: String },
}

/// An exposure with its host as characters.
pub enum ExposureView {
    Local,
    Exposed(Seq<char>),
}

impl View for Exposure {
    type V = ExposureView;

    open spec fn view(&self) -> ExposureView {
        match self {
            Exposure::Local => ExposureView::Local,
            Exposure::Exposed { public_host } => ExposureView::Exposed(public_host@),
        }
    }
}

impl Exposure {
    /// A copy of this exposure.
    pub fn copy(&self) -> (e: Exposure)
        ensures
            e@ == self@,
    {
        match self {
            Exposure::Local => Exposure::Local,
            Exposure::Exposed { public_host } => Exposure::Exposed { public_host: public_host.clone() },
        }
    }

    /// Whether two exposures are the same: both local, or exposed as the same host.
    pub fn same_as(&self, other: &Exposure) -> (r: bool)
        ensures
            r == (self@ == other@),
    {
        match (self, other) {
            (Exposure::Local, Exposure::Local) => true,
            (Exposure::Exposed { public_host: a }, Exposure::Exposed { public_host: b }) => {
                crate::table::compare_text(a.as_str(), b.as_str()) == 0
            },
            _ => false,
        }
    }
}

/// An IPv4 address as the standard parser reads one: four dot-separated decimal
/// numbers, each one to three digits with no leading zero, none above 255.
pub open spec fn ipv4_part(p: Seq<char>) -> Option<u8> {
    if 1 <= p.len() <= 3 && all_digits(p) && (p.len() == 1 || p[0] != '0') && digits_value(p) <= 255 {
        Some(digits_value(p) as u8)
    } else {
        None
    }
}

pub open spec fn ipv4_of(host: Seq<char>) -> Option<(u8, u8, u8, u8)> {
    let parts = split_by(host, '.');
    if parts.len() == 4 {
        match (ipv4_part(parts[0]), ipv4_part(parts[1]), ipv4_part(parts[2]), ipv4_part(parts[3])) {
            (Some(a), Some(b), Some(c), Some(d)) => Some((a, b, c, d)),
            _ => None,
        }
    } else {
        None
    }
}

fn ipv4_part_exec(p: &Vec<char>) -> (r: Option<u8>)
    ensures
        r == ipv4_part(p@),
{
    if p.len() < 1 || p.len() > 3 || (p.len() > 1 && p[0] == '0') {
        return None;
    }
    if p[0] == '+' {
        assert(!crate::text::is_digit(p@[0]));
        return None;
    }
    match parse_uint_chars(p, 255) {
        Some(v) => Some(v as u8),
        None => None,
    }
}

pub fn parse_ipv4(host: &str) -> (r: Option<(u8, u8, u8, u8)>)
    ensures
        r == ipv4_of(host@),
{
    let cs = chars_of(host);
    let parts = split_chars(&cs, '.');
    if parts.len() != 4 {
        return None;
    }
    let a = ipv4_part_exec(&parts[0]);
    let b = ipv4_part_exec(&parts[1]);
    let c = ipv4_part_exec(&parts[2]);
    let d = ipv4_part_exec(&parts[3]);
    match (a, b, c, d) {
        (Some(a), Some(b), Some(c), Some(d)) => Some((a, b, c, d)),
        _ => None,
    }
}

/// `Ipv4Addr::is_loopback` or `is_unspecified`: nothing another machine can reach.
pub open spec fn unreachable_ipv4(a: (u8, u8, u8, u8)) -> bool {
    a.0 == 127 || (a.0 == 0 && a.1 == 0 && a.2 == 0 && a.3 == 0)
}

/// `a.b.c.d`, as `Ipv4Addr` displays.
pub open spec fn ipv4_text(a: (u8, u8, u8, u8)) -> Seq<char> {
    decimal(a.0 as nat) + seq!['.'] + decimal(a.1 as nat) + seq!['.'] + decimal(a.2 as nat) + seq!['.'] + decimal(a.3 as nat)
}

pub fn ipv4_display(a: (u8, u8, u8, u8)) -> (s: String)
    ensures
        s@ == ipv4_text(a),
{
    let mut v = decimal_chars(a.0 as u64);
    v.push('.');
    let x = decimal_chars(a.1 as u64);
    extend_chars(&mut v, &x);
    v.push('.');
    let x = decimal_chars(a.2 as u64);
    extend_chars(&mut v, &x);
    v.push('.');
    let x = decimal_chars(a.3 as u64);
    extend_chars(&mut v, &x);
    string_of(&v)
}

pub open spec fn is_alnum(c: char) -> bool {
    ('a' <= c && c <= 'z') || ('A' <= c && c <= 'Z') || ('0' <= c && c <= '9')
}

/// One DNS label: 1 to 63 letters, digits and hyphens, starting and ending with a
/// letter or digit.
pub open spec fn valid_label(l: Seq<char>) -> bool {
    &&& 1 <= l.len() <= 63
    &&& forall|i: int| 0 <= i < l.len() ==> is_alnum(#[trigger] l[i]) || l[i] == '-'
    &&& is_alnum(l[0])
    &&& is_alnum(l.last())
}

pub open spec fn localhost() -> Seq<char> {
    seq!['l', 'o', 'c', 'a', 'l', 'h', 'o', 's', 't']
}

/// A hostname another machine could be told to use: at most 253 characters, not
/// `localhost` or under `.localhost` in any case, every label valid.
pub open spec fn valid_hostname(h: Seq<char>) -> bool {
    let labels = split_by(h, '.');
    &&& h.len() > 0
    &&& h.len() <= 253
    &&& lower_all(h) != localhost()
    &&& !(lower_all(h).len() >= 10 && lower_all(h).subrange(lower_all(h).len() - 10, lower_all(h).len() as int) == seq!['.'] + localhost())
    &&& forall|i: int| 0 <= i < labels.len() ==> valid_label(#[trigger] labels[i])
}

/// The host with one trailing dot (a fully qualified name's root) set aside.
pub open spec fn without_root_dot(h: Seq<char>) -> Seq<char> {
    if h.len() > 0 && h.last() == '.' { h.drop_last() } else { h }
}

/// The verdict on a host offered for exposure.
#[derive(Debug)]
pub enum HostVerdict {
    Acceptable,
    Unreachable,
    Malformed,
}

pub open spec fn host_verdict(host: Seq<char>) -> HostVerdict {
    match ipv4_of(host) {
        Some(a) => if unreachable_ipv4(a) { HostVerdict::Unreachable } else { HostVerdict::Acceptable },
        None => if valid_hostname(without_root_dot(host)) { HostVerdict::Acceptable } else { HostVerdict::Malformed },
    }
}

fn valid_label_exec(l: &Vec<char>) -> (r: bool)
    ensures
        r == valid_label(l@),
{
    if l.len() < 1 || l.len() > 63 {
        return false;
    }
    let mut i: usize = 0;
    while i < l.len()
        invariant
            i <= l.len(),
            forall|j: int| 0 <= j < i ==> is_alnum(#[trigger] l@[j]) || l@[j] == '-',
        decreases l.len() - i,
    {
        let c = l[i];
        if !(('a' <= c && c <= 'z') || ('A' <= c && c <= 'Z') || ('0' <= c && c <= '9') || c == '-') {
            return false;
        }
        i += 1;
    }
    let f = l[0];
    let z = l[l.len() - 1];
    (('a' <= f && f <= 'z') || ('A' <= f && f <= 'Z') || ('0' <= f && f <= '9'))
        && (('a' <= z && z <= 'z') || ('A' <= z && z <= 'Z') || ('0' <= z && z <= '9'))
}

fn valid_hostname_exec(h: &Vec<char>) -> (r: bool)
    ensures
        r == valid_hostname(h@),
{
    if h.len() == 0 || h.len() > 253 {
        return false;
    }
    let low = lower_chars(h);
    let lh = chars_of("localhost");
    let dot_lh = chars_of(".localhost");
    proof { reveal_strlit("localhost"); reveal_strlit(".localhost"); }
    assert(lh@ =~= localhost());
    assert(dot_lh@ =~= seq!['.'] + localhost());
    if low.len() == 9 {
        let mut same = true;
        let mut i: usize = 0;
        while i < 9
            invariant
                low@.len() == 9, lh@.len() == 9,
                i <= 9,
                same <==> forall|j: int| 0 <= j < i ==> low@[j] == lh@[j],
            decreases 9 - i,
        {
            if low[i] != lh[i] {
                same = false;
            }
            i += 1;
        }
        if same {
            assert(low@ =~= lh@);
            return false;
        }
        assert(low@ != lh@) by {
            if low@ == lh@ {
                assert(forall|j: int| 0 <= j < 9 ==> low@[j] == lh@[j]);
            }
        }
    }
    if low.len() >= 10 {
        let tail = crate::text::slice_chars(&low, low.len() - 10, low.len());
        let mut same = true;
        let mut i: usize = 0;
        while i < 10
            invariant
                tail@.len() == 10, dot_lh@.len() == 10,
                i <= 10,
                same <==> forall|j: int| 0 <= j < i ==> tail@[j] == dot_lh@[j],
            decreases 10 - i,
        {
            if tail[i] != dot_lh[i] {
                same = false;
            }
            i += 1;
        }
        if same {
            assert(tail@ =~= dot_lh@);
            return false;
        }
        assert(tail@ != dot_lh@) by {
            if tail@ == dot_lh@ {
                assert(forall|j: int| 0 <= j < 10 ==> tail@[j] == dot_lh@[j]);
            }
        }
    }
    let labels = split_chars(h, '.');
    let mut i: usize = 0;
    while i < labels.len()
        invariant
            i <= labels.len(),
            char_rows(labels@) == split_by(h@, '.'),
            forall|j: int| 0 <= j < i ==> valid_label(#[trigger] split_by(h@, '.')[j]),
        decreases labels.len() - i,
    {
        assert(char_rows(labels@)[i as int] == labels@[i as int]@);
        if !valid_label_exec(&labels[i]) {
            return false;
        }
        i += 1;
    }
    true
}

pub fn judge_host(host: &str) -> (v: HostVerdict)
    ensures
        v == host_verdict(host@),
{
    match parse_ipv4(host) {
        Some(a) => {
            if a.0 == 127 || (a.0 == 0 && a.1 == 0 && a.2 == 0 && a.3 == 0) {
                HostVerdict::Unreachable
            } else {
                HostVerdict::Acceptable
            }
        },
        None => {
            let cs = chars_of(host);
            let h = if cs.len() > 0 && cs[cs.len() - 1] == '.' {
                crate::text::slice_chars(&cs, 0, cs.len() - 1)
            } else {
                cs
            };
            assert(h@ == without_root_dot(host@));
            if valid_hostname_exec(&h) { HostVerdict::Acceptable } else { HostVerdict::Malformed }
        },
    }
}

/// Why exposure could not be chosen.
#[derive(Debug)]
pub enum ExposureError {
    /// The host named is loopback or the wildcard address.
    Unreachable { host: String },
    /// The host named is neither an IPv4 address nor a hostname.
    Malformed { host: String },
    /// The default route could not be read.
    RouteUnknown { cause: String },
    /// The default route's source address is loopback or the wildcard.
    RouteUnreachable { address: String },
}

impl ExposureError {
    pub open spec fn message_of(&self) -> Seq<char> {
        match self {
            ExposureError::Unreachable { host } => "exposure host "@ + quoted(host@) + " is not reachable from another machine"@,
            ExposureError::Malformed { host } => "exposure host "@ + quoted(host@)
                + " must be a non-loopback IPv4 address or an ASCII hostname, without a scheme, port, or path"@,
            ExposureError::RouteUnknown { cause } => "detecting the default-route IPv4 address; pass `--expose-host <IPv4-or-hostname>` to choose it explicitly: "@ + cause@,
            ExposureError::RouteUnreachable { address } => "default-route address "@ + address@
                + " is not reachable from another machine; pass `--expose-host <IPv4-or-hostname>` explicitly"@,
        }
    }

    pub fn message(&self) -> (m: String)
        ensures
            m@ == self.message_of(),
    {
        match self {
            ExposureError::Unreachable { host } => {
                let mut m = owned("exposure host ");
                let q = quote(host.as_str());
                push_text(&mut m, q.as_str());
                push_text(&mut m, " is not reachable from another machine");
                m
            },
            ExposureError::Malformed { host } => {
                let mut m = owned("exposure host ");
                let q = quote(host.as_str());
                push_text(&mut m, q.as_str());
                push_text(&mut m, " must be a non-loopback IPv4 address or an ASCII hostname, without a scheme, port, or path");
                m
            },
            ExposureError::RouteUnknown { cause } => {
                let mut m = owned("detecting the default-route IPv4 address; pass `--expose-host <IPv4-or-hostname>` to choose it explicitly: ");
                push_text(&mut m, cause.as_str());
                m
            },
            ExposureError::RouteUnreachable { address } => {
                let mut m = owned("default-route address ");
                push_text(&mut m, address.as_str());
                push_text(&mut m, " is not reachable from another machine; pass `--expose-host <IPv4-or-hostname>` explicitly");
                m
            },
        }
    }
}

proof fn lemma_digit_char(k: nat)
    requires
        k < 10,
    ensures
        crate::text::is_digit(crate::text::digit_char(k)),
        (crate::text::digit_char(k) as u32) - ('0' as u32) == k,
        crate::text::digit_char(k) != '.',
        k > 0 ==> crate::text::digit_char(k) != '0',
{
}

proof fn lemma_decimal_small(n: nat)
    requires
        n <= 255,
    ensures
        1 <= decimal(n).len() <= 3,
        n >= 10 ==> decimal(n).len() >= 2,
        n < 100 ==> decimal(n).len() <= 2,
        n < 10 ==> decimal(n).len() == 1,
        all_digits(decimal(n)),
        decimal(n).len() == 1 || decimal(n)[0] != '0',
        digits_value(decimal(n)) == n,
        forall|i: int| 0 <= i < decimal(n).len() ==> decimal(n)[i] != '.',
    decreases n,
{
    let d = decimal(n);
    if n < 10 {
        lemma_digit_char(n);
        assert(d.drop_last() =~= Seq::<char>::empty());
        assert(digits_value(d) == digits_value(d.drop_last()) * 10 + ((d.last() as u32) - ('0' as u32)) as nat);
    } else {
        lemma_decimal_small(n / 10);
        lemma_digit_char(n % 10);
        let e = decimal(n / 10);
        assert(d == e.push(crate::text::digit_char(n % 10)));
        assert(d.drop_last() =~= e);
        if n / 10 < 10 {
            lemma_digit_char(n / 10);
            assert(e[0] == crate::text::digit_char(n / 10));
        }
        assert(d[0] == e[0]);
        assert(digits_value(d) == digits_value(e) * 10 + ((d.last() as u32) - ('0' as u32)) as nat);
        assert(n == (n / 10) * 10 + n % 10);
        assert forall|i: int| 0 <= i < d.len() implies crate::text::is_digit(#[trigger] d[i]) && d[i] != '.' by {
            if i < d.len() - 1 { assert(d[i] == e[i]); }
        }
    }
}

proof fn lemma_split_join(x: Seq<char>, y: Seq<char>)
    requires
        forall|i: int| 0 <= i < y.len() ==> y[i] != '.',
    ensures
        split_by(x + seq!['.'] + y, '.') == split_by(x, '.').push(y),
    decreases y.len(),
{
    if y.len() == 0 {
        assert(x + seq!['.'] + y =~= x.push('.'));
        assert((x + seq!['.'] + y).drop_last() =~= x);
        assert(y =~= Seq::<char>::empty());
    } else {
        let z = x + seq!['.'] + y;
        assert(z.drop_last() =~= x + seq!['.'] + y.drop_last());
        assert(z.last() == y.last());
        lemma_split_join(x, y.drop_last());
        let p = split_by(z.drop_last(), '.');
        assert(p == split_by(x, '.').push(y.drop_last()));
        assert(p.last() == y.drop_last());
        assert(y.drop_last().push(y.last()) =~= y);
        assert(p.update(p.len() - 1, p.last().push(z.last())) =~= split_by(x, '.').push(y));
    }
}

proof fn lemma_no_dot_split(y: Seq<char>)
    requires
        forall|i: int| 0 <= i < y.len() ==> y[i] != '.',
    ensures
        split_by(y, '.') == seq![y],
    decreases y.len(),
{
    if y.len() > 0 {
        lemma_no_dot_split(y.drop_last());
        assert(y.drop_last().push(y.last()) =~= y);
    } else {
        assert(y =~= Seq::<char>::empty());
    }
}

proof fn lemma_display_parses(a: (u8, u8, u8, u8))
    ensures
        ipv4_of(ipv4_text(a)) == Some(a),
{
    lemma_decimal_small(a.0 as nat);
    lemma_decimal_small(a.1 as nat);
    lemma_decimal_small(a.2 as nat);
    lemma_decimal_small(a.3 as nat);
    let d0 = decimal(a.0 as nat);
    let d1 = decimal(a.1 as nat);
    let d2 = decimal(a.2 as nat);
    let d3 = decimal(a.3 as nat);
    lemma_no_dot_split(d0);
    lemma_split_join(d0, d1);
    lemma_split_join(d0 + seq!['.'] + d1, d2);
    lemma_split_join(d0 + seq!['.'] + d1 + seq!['.'] + d2, d3);
    let parts = split_by(ipv4_text(a), '.');
    assert(parts =~= seq![d0, d1, d2, d3]);
}

/// Detection and naming agree: the address `--expose` detects is one `--expose-host`
/// accepts when it is typed in, and an address detection refuses, `--expose-host`
/// refuses as unreachable too.
pub proof fn law_a_detected_address_is_accepted_by_name(a: (u8, u8, u8, u8))
    ensures
        host_verdict(ipv4_text(a)) == (if unreachable_ipv4(a) { HostVerdict::Unreachable } else { HostVerdict::Acceptable }),
{
    lemma_display_parses(a);
}

impl Exposure {
    pub open spec fn public_host_of(&self) -> Seq<char> {
        match self {
            Exposure::Local => localhost(),
            Exposure::Exposed { public_host } => public_host@,
        }
    }

    pub open spec fn bind_host_of(&self) -> Seq<char> {
        match self {
            Exposure::Local => seq!['1', '2', '7', '.', '0', '.', '0', '.', '1'],
            Exposure::Exposed { .. } => seq!['0', '.', '0', '.', '0', '.', '0'],
        }
    }

    pub fn local() -> (e: Self)
        ensures
            e is Local,
    {
        Exposure::Local
    }

    /// Expose under `host`, which must be an IPv4 address another machine can reach
    /// or an ASCII hostname, without a scheme, port or path.
    pub fn explicit(host: &str) -> (r: Result<Self, ExposureError>)
        ensures
            match host_verdict(host@) {
                HostVerdict::Acceptable => r matches Ok(Exposure::Exposed { public_host }) && public_host@ == host@,
                HostVerdict::Unreachable => r matches Err(ExposureError::Unreachable { host: h }) && h@ == host@,
                HostVerdict::Malformed => r matches Err(ExposureError::Malformed { host: h }) && h@ == host@,
            },
    {
        match judge_host(host) {
            HostVerdict::Acceptable => Ok(Exposure::Exposed { public_host: owned(host) }),
            HostVerdict::Unreachable => Err(ExposureError::Unreachable { host: owned(host) }),
            HostVerdict::Malformed => Err(ExposureError::Malformed { host: owned(host) }),
        }
    }

    /// Expose under the source address the kernel would use for the default route,
    /// as the application found it (or why it could not).
    pub fn detect(route: Result<(u8, u8, u8, u8), String>) -> (r: Result<Self, ExposureError>)
        ensures
            match route {
                Err(cause) => r matches Err(ExposureError::RouteUnknown { cause: c }) && c@ == cause@,
                Ok(a) => if unreachable_ipv4(a) {
                    r matches Err(ExposureError::RouteUnreachable { address }) && address@ == ipv4_text(a)
                } else {
                    r matches Ok(Exposure::Exposed { public_host }) && public_host@ == ipv4_text(a)
                },
            },
    {
        match route {
            Err(cause) => Err(ExposureError::RouteUnknown { cause }),
            Ok(a) => {
                let text = ipv4_display(a);
                if a.0 == 127 || (a.0 == 0 && a.1 == 0 && a.2 == 0 && a.3 == 0) {
                    return Err(ExposureError::RouteUnreachable { address: text });
                }
                proof { lemma_display_parses(a); }
                Exposure::explicit(text.as_str())
            },
        }
    }

    pub fn is_exposed(&self) -> (r: bool)
        ensures
            r == (self is Exposed),
    {
        match self {
            Exposure::Local => false,
            Exposure::Exposed { .. } => true,
        }
    }

    /// What a browser on another machine types: `localhost` unless exposed.
    pub fn public_host(&self) -> (h: &str)
        ensures
            h@ == self.public_host_of(),
    {
        match self {
            Exposure::Local => {
                proof { reveal_strlit("localhost"); }
                "localhost"
            },
            Exposure::Exposed { public_host } => public_host.as_str(),
        }
    }

    /// Where services bind: loopback unless exposed, then every interface.
    pub fn bind_host(&self) -> (h: &str)
        ensures
            h@ == self.bind_host_of(),
    {
        match self {
            Exposure::Local => {
                proof { reveal_strlit("127.0.0.1"); }
                "127.0.0.1"
            },
            Exposure::Exposed { .. } => {
                proof { reveal_strlit("0.0.0.0"); }
                "0.0.0.0"
            },
        }
    }
}

} // verus!
