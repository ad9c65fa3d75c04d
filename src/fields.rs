//! Extraction of named values from multi-line replies shaped as `<tag>,<value>` records.
use vstd::prelude::*;
use crate::error::GenericEspAtError;

verus! {

/// Longest IPv4 address, in characters.
pub const IPV4_MAX_LEN: usize = 15;

/// Length of an IPv6 address in its full form, in characters.
pub const IPV6_MAX_LEN: usize = 39;

/// Length of a MAC address, in characters.
pub const MAC_MAX_LEN: usize = 17;

/// Whether `tag` occurs in `reply` at position `p`.
pub open spec fn occurs_at(reply: Seq<u8>, tag: Seq<u8>, p: int) -> bool {
    0 <= p && p + tag.len() <= reply.len() && reply.subrange(p, p + tag.len()) == tag
}

/// The first position at or after `i` where `tag` occurs in `reply`.
pub open spec fn find_from(reply: Seq<u8>, tag: Seq<u8>, i: int) -> Option<int>
    decreases reply.len() - i,
{
    if i < 0 || i >= reply.len() || i + tag.len() > reply.len() {
        None
    } else if occurs_at(reply, tag, i) {
        Some(i)
    } else {
        find_from(reply, tag, i + 1)
    }
}

/// Whether a byte ends a value: a carriage return or a comma.
pub open spec fn is_value_end(b: u8) -> bool {
    b == 13u8 || b == 44u8
}

/// The position of the first byte at or after `i` that ends a value, or the end
/// of the reply.
pub open spec fn value_end(reply: Seq<u8>, i: int) -> int
    decreases reply.len() - i,
{
    if i >= reply.len() {
        reply.len() as int
    } else if is_value_end(reply[i]) {
        i
    } else {
        value_end(reply, i + 1)
    }
}

/// The value named by `tag`: it starts one byte after the first occurrence of the
/// tag, past the delimiter, and runs up to the next carriage return or comma.
/// The byte after the tag is not checked, so a tag that is a prefix of another
/// tag can match the other one. `None` when the tag does not occur.
pub open spec fn element_after(reply: Seq<u8>, tag: Seq<u8>) -> Option<Seq<u8>> {
    match find_from(reply, tag, 0) {
        None => None,
        Some(p) => {
            let start = if p + tag.len() + 1 <= reply.len() {
                p + tag.len() + 1
            } else {
                reply.len() as int
            };
            Some(reply.subrange(start, value_end(reply, start)))
        },
    }
}

/// Whether the value named by `tag`, if any, fits in `max_len` bytes.
pub open spec fn element_fits(reply: Seq<u8>, tag: Seq<u8>, max_len: nat) -> bool {
    match element_after(reply, tag) {
        None => true,
        Some(v) => v.len() <= max_len,
    }
}

/// What extracting `tag` with room for `max_len` bytes gives: the value, `None`
/// when the tag does not occur, or an error when the value does not fit.
pub open spec fn extract_result(
    r: Result<Option<Vec<u8>>, GenericEspAtError>,
    reply: Seq<u8>,
    tag: Seq<u8>,
    max_len: nat,
) -> bool {
    if element_fits(reply, tag, max_len) {
        r is Ok && match element_after(reply, tag) {
            None => r->Ok_0 is None,
            Some(v) => r->Ok_0 is Some && r->Ok_0->0@ == v,
        }
    } else {
        r is Err && r->Err_0 is ATResponseInvalid
    }
}

fn matches_at(reply: &[u8], tag: &[u8], p: usize) -> (r: bool)
    requires
        p + tag@.len() <= reply@.len(),
    ensures
        r == occurs_at(reply@, tag@, p as int),
{
    let mut j: usize = 0;
    while j < tag.len()
        invariant
            p + tag@.len() <= reply@.len(),
            reply@.len() == reply.len(),
            0 <= j <= tag@.len(),
            forall|k: int| 0 <= k < j ==> reply@[p + k] == tag@[k],
        decreases tag@.len() - j,
    {
        if reply[p + j] != tag[j] {
            assert(reply@.subrange(p as int, p + tag@.len())[j as int] != tag@[j as int]);
            return false;
        }
        j = j + 1;
    }
    assert(reply@.subrange(p as int, p + tag@.len()) =~= tag@);
    true
}

fn find_tag(reply: &[u8], tag: &[u8]) -> (r: Option<usize>)
    requires
        tag@.len() > 0,
    ensures
        r is None ==> find_from(reply@, tag@, 0) is None,
        r is Some ==> find_from(reply@, tag@, 0) == Some(r->0 as int) && r->0 + tag@.len()
            <= reply@.len(),
{
    if tag.len() > reply.len() {
        return None;
    }
    let last = reply.len() - tag.len();
    let mut p: usize = 0;
    while p <= last
        invariant
            last + tag@.len() == reply@.len(),
            last < reply@.len(),
            reply@.len() == reply.len(),
            p <= last + 1,
            find_from(reply@, tag@, 0) == find_from(reply@, tag@, p as int),
        decreases last + 1 - p,
    {
        if matches_at(reply, tag, p) {
            return Some(p);
        }
        p = p + 1;
    }
    None
}

/// Finds the value named by `tag` in a reply (see `element_after`) and copies it
/// out; fails with `ATResponseInvalid` when it is longer than `max_len` bytes.
pub fn get_element_after(reply: &[u8], tag: &[u8], max_len: usize) -> (r: Result<
    Option<Vec<u8>>,
    GenericEspAtError,
>)
    requires
        tag@.len() > 0,
    ensures
        extract_result(r, reply@, tag@, max_len as nat),
{
    let p = match find_tag(reply, tag) {
        None => {
            return Ok(None);
        },
        Some(p) => p,
    };
    let rlen = reply.len();
    let tag_end = p + tag.len();
    let start: usize = if tag_end < reply.len() {
        tag_end + 1
    } else {
        reply.len()
    };
    assert(element_after(reply@, tag@) == Some(reply@.subrange(start as int, value_end(reply@, start as int))));
    let mut value: Vec<u8> = Vec::new();
    let mut i: usize = start;
    while i < reply.len() && reply[i] != 13u8 && reply[i] != 44u8
        invariant
            reply@.len() == reply.len(),
            start <= i <= reply@.len(),
            value_end(reply@, start as int) == value_end(reply@, i as int),
            value@ == reply@.subrange(start as int, i as int),
            value@.len() <= max_len,
            find_from(reply@, tag@, 0) == Some(p as int),
            element_after(reply@, tag@) == Some(reply@.subrange(start as int, value_end(reply@, start as int))),
        decreases reply@.len() - i,
    {
        if value.len() >= max_len {
            proof {
                lemma_value_end_at_least(reply@, i as int);
                lemma_value_end_bounds(reply@, start as int);
            }
            return Err(GenericEspAtError::ATResponseInvalid);
        }
        value.push(reply[i]);
        i = i + 1;
        assert(value@ =~= reply@.subrange(start as int, i as int));
    }
    Ok(Some(value))
}

proof fn lemma_value_end_bounds(reply: Seq<u8>, i: int)
    requires
        0 <= i <= reply.len(),
    ensures
        i <= value_end(reply, i) <= reply.len(),
    decreases reply.len() - i,
{
    if i < reply.len() && !is_value_end(reply[i]) {
        lemma_value_end_bounds(reply, i + 1);
    }
}

proof fn lemma_value_end_at_least(reply: Seq<u8>, i: int)
    requires
        0 <= i < reply.len(),
        !is_value_end(reply[i]),
    ensures
        value_end(reply, i) > i,
{
    lemma_value_end_bounds(reply, i + 1);
}

/// The network interface whose addresses a query reports.
#[derive(Debug, Clone, Copy, PartialEq, Eq, Structural)]
pub enum Interface {
    /// The access point role; its tags start with `AP`.
    SoftAP,
    /// The station role; its tags start with `STA`.
    Station,
    /// The wired interface; its tags start with `ETH`.
    Ethernet,
}

/// The addresses of one interface, each present when the co-processor reports it.
pub struct LocalAddresses {
    /// IPv4 address, up to 15 characters.
    pub ipv4: Option<Vec<u8>>,
    /// Link-local IPv6 address, up to 39 characters.
    pub ipv6_local: Option<Vec<u8>>,
    /// Global IPv6 address, up to 39 characters.
    pub ipv6_global: Option<Vec<u8>>,
    /// MAC address, up to 17 characters.
    pub mac: Option<Vec<u8>>,
}

/// The start shared by the tags of an interface.
pub open spec fn tag_prefix(interface: Interface) -> Seq<u8> {
    match interface {
        Interface::SoftAP => seq![65u8, 80],
        Interface::Station => seq![83u8, 84, 65],
        Interface::Ethernet => seq![69u8, 84, 72],
    }
}

/// `<prefix>IP`
pub open spec fn ipv4_tag(interface: Interface) -> Seq<u8> {
    tag_prefix(interface) + seq![73u8, 80]
}

/// `<prefix>IP6LL`
pub open spec fn ipv6_local_tag(interface: Interface) -> Seq<u8> {
    tag_prefix(interface) + seq![73u8, 80, 54, 76, 76]
}

/// `<prefix>IP6GL`
pub open spec fn ipv6_global_tag(interface: Interface) -> Seq<u8> {
    tag_prefix(interface) + seq![73u8, 80, 54, 71, 76]
}

/// `<prefix>MAC`
pub open spec fn mac_tag(interface: Interface) -> Seq<u8> {
    tag_prefix(interface) + seq![77u8, 65, 67]
}

/// The bytes of an optional value.
pub open spec fn opt_bytes(v: Option<Vec<u8>>) -> Option<Seq<u8>> {
    match v {
        Some(b) => Some(b@),
        None => None,
    }
}

/// Whether every address of `interface` in `reply` fits its field.
pub open spec fn addresses_fit(reply: Seq<u8>, interface: Interface) -> bool {
    element_fits(reply, ipv4_tag(interface), IPV4_MAX_LEN as nat) && element_fits(
        reply,
        ipv6_local_tag(interface),
        IPV6_MAX_LEN as nat,
    ) && element_fits(reply, ipv6_global_tag(interface), IPV6_MAX_LEN as nat) && element_fits(
        reply,
        mac_tag(interface),
        MAC_MAX_LEN as nat,
    )
}

/// Whether `a` holds exactly the addresses of `interface` that `reply` names.
pub open spec fn addresses_of(a: LocalAddresses, reply: Seq<u8>, interface: Interface) -> bool {
    opt_bytes(a.ipv4) == element_after(reply, ipv4_tag(interface)) && opt_bytes(a.ipv6_local)
        == element_after(reply, ipv6_local_tag(interface)) && opt_bytes(a.ipv6_global)
        == element_after(reply, ipv6_global_tag(interface)) && opt_bytes(a.mac) == element_after(
        reply,
        mac_tag(interface),
    )
}

fn tag_of(interface: Interface, suffix: &[u8]) -> (r: Vec<u8>)
    ensures
        r@ == tag_prefix(interface) + suffix@,
{
    let mut r: Vec<u8> = match interface {
        Interface::SoftAP => vec![65u8, 80],
        Interface::Station => vec![83u8, 84, 65],
        Interface::Ethernet => vec![69u8, 84, 72],
    };
    assert(r@ =~= tag_prefix(interface));
    r.extend_from_slice(suffix);
    r
}

/// Reads the addresses of `interface` from the payload of an address query.
/// Fails with `ATResponseInvalid` when a value is longer than its field allows.
pub fn local_addresses(reply: &[u8], interface: Interface) -> (r: Result<
    LocalAddresses,
    GenericEspAtError,
>)
    ensures
        addresses_fit(reply@, interface) ==> r is Ok && addresses_of(r->Ok_0, reply@, interface),
        !addresses_fit(reply@, interface) ==> r is Err && r->Err_0 is ATResponseInvalid,
{
    let ip: [u8; 2] = [73u8, 80];
    let ip6ll: [u8; 5] = [73u8, 80, 54, 76, 76];
    let ip6gl: [u8; 5] = [73u8, 80, 54, 71, 76];
    let mac: [u8; 3] = [77u8, 65, 67];
    assert(ip@ =~= seq![73u8, 80]);
    assert(ip6ll@ =~= seq![73u8, 80, 54, 76, 76]);
    assert(ip6gl@ =~= seq![73u8, 80, 54, 71, 76]);
    assert(mac@ =~= seq![77u8, 65, 67]);
    let t1 = tag_of(interface, ip.as_slice());
    let t2 = tag_of(interface, ip6ll.as_slice());
    let t3 = tag_of(interface, ip6gl.as_slice());
    let t4 = tag_of(interface, mac.as_slice());
    let ipv4 = get_element_after(reply, t1.as_slice(), IPV4_MAX_LEN)?;
    let ipv6_local = get_element_after(reply, t2.as_slice(), IPV6_MAX_LEN)?;
    let ipv6_global = get_element_after(reply, t3.as_slice(), IPV6_MAX_LEN)?;
    let mac = get_element_after(reply, t4.as_slice(), MAC_MAX_LEN)?;
    Ok(LocalAddresses { ipv4, ipv6_local, ipv6_global, mac })
}

} // verus!
