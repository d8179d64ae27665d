//! Client addresses, and the proxies trusted to report them.
use crate::text::{concat_spec, split, split_on, text_of, trim, trimmed};
use ipnet::IpNet;
use vstd::prelude::*;

verus! {

/// A client address: an IPv4 or an IPv6 address as its integer value.
#[derive(Clone, Copy, Debug, PartialEq, Eq, Hash, Structural)]
pub enum Address {
    V4(u32),
    V6(u128),
}

impl View for Address {
    type V = Address;

    open spec fn view(&self) -> Address {
        *self
    }
}

/// A network: an address and the length of its prefix, in bits.
#[derive(Clone, Copy, Debug, PartialEq, Eq, Structural)]
#[allow(inconsistent_fields)]
pub enum Network {
    V4 { addr: u32, prefix: u8 },
    V6 { addr: u128, prefix: u8 },
}

impl Network {
    /// The prefix fits the address: at most 32 bits, or 128.
    pub open spec fn valid(self) -> bool {
        match self {
            Network::V4 { prefix, .. } => prefix <= 32,
            Network::V6 { prefix, .. } => prefix <= 128,
        }
    }
}

/// The bits of an IPv4 address that a prefix of that length fixes.
pub open spec fn mask_v4(prefix: u8) -> u32 {
    if prefix == 0 {
        0
    } else {
        0xffff_ffffu32 << ((32 - prefix) as u32)
    }
}

/// The bits of an IPv6 address that a prefix of that length fixes.
pub open spec fn mask_v6(prefix: u8) -> u128 {
    if prefix == 0 {
        0
    } else {
        0xffff_ffff_ffff_ffff_ffff_ffff_ffff_ffffu128 << ((128 - prefix) as u32)
    }
}

/// The address lies between the network's first and last address, and is of
/// the same family.
pub open spec fn contains_spec(net: Network, a: Address) -> bool {
    match (net, a) {
        (Network::V4 { addr, prefix }, Address::V4(x)) => {
            &&& (addr & mask_v4(prefix)) <= x
            &&& x <= (addr | !mask_v4(prefix))
        },
        (Network::V6 { addr, prefix }, Address::V6(x)) => {
            &&& (addr & mask_v6(prefix)) <= x
            &&& x <= (addr | !mask_v6(prefix))
        },
        _ => false,
    }
}

impl Network {
    /// Whether `a` belongs to this network.
    pub fn contains(&self, a: Address) -> (r: bool)
        requires
            self.valid(),
        ensures
            r == contains_spec(*self, a),
    {
        match (self, a) {
            (Network::V4 { addr, prefix }, Address::V4(x)) => {
                let mask: u32 = if *prefix == 0 {
                    0
                } else {
                    0xffff_ffffu32 << (32 - *prefix as u32)
                };
                (*addr & mask) <= x && x <= (*addr | !mask)
            },
            (Network::V6 { addr, prefix }, Address::V6(x)) => {
                let mask: u128 = if *prefix == 0 {
                    0
                } else {
                    0xffff_ffff_ffff_ffff_ffff_ffff_ffff_ffffu128 << (128 - *prefix as u32)
                };
                (*addr & mask) <= x && x <= (*addr | !mask)
            },
            _ => false,
        }
    }
}

/// What `str::parse::<ipnet::IpNet>` gives for a text, `None` for an error.
pub uninterp spec fn network_of_text(text: Seq<char>) -> Option<Network>;

/// `str::parse::<ipnet::IpNet>`: a network of a valid prefix, or the error's
/// text, which ipnet's `AddrParseError` always writes as
/// "invalid IP address syntax". The grammar is ipnet's; its result is only
/// named here.
#[verifier::external_body]
fn parse_ipnet(text: &str) -> (r: Result<Network, String>)
    ensures
        r is Ok <==> network_of_text(text@) is Some,
        r matches Ok(n) ==> network_of_text(text@) == Some(n) && n.valid(),
        r matches Err(e) ==> e@ == "invalid IP address syntax"@,
{
    match text.parse::<IpNet>() {
        Ok(IpNet::V4(n)) => Ok(Network::V4 { addr: u32::from(n.addr()), prefix: n.prefix_len() }),
        Ok(IpNet::V6(n)) => Ok(Network::V6 { addr: u128::from(n.addr()), prefix: n.prefix_len() }),
        Err(e) => Err(e.to_string()),
    }
}

/// The text after the last comma, or the whole text when it has none
/// (`rsplit(',').next()`).
pub open spec fn last_entry(s: Seq<char>) -> Seq<char>
    decreases s.len(),
{
    if s.len() == 0 {
        s
    } else if s.last() == ',' {
        Seq::empty()
    } else {
        last_entry(s.drop_last()).push(s.last())
    }
}

proof fn lemma_last_entry(s: Seq<char>, lo: int)
    requires
        0 <= lo <= s.len(),
        forall|j: int| lo <= j < s.len() ==> s[j] != ',',
        lo == 0 || s[lo - 1] == ',',
    ensures
        last_entry(s) == s.subrange(lo, s.len() as int),
    decreases s.len(),
{
    if s.len() == lo {
        assert(s.subrange(lo, s.len() as int) =~= Seq::<char>::empty());
    } else {
        let t = s.drop_last();
        assert forall|j: int| lo <= j < t.len() implies t[j] != ',' by {
            assert(t[j] == s[j]);
        }
        if lo > 0 {
            assert(t[lo - 1] == s[lo - 1]);
        }
        lemma_last_entry(t, lo);
        assert(s.subrange(lo, s.len() as int) =~= t.subrange(lo, t.len() as int).push(s.last()));
    }
}

/// Whether one of the networks holds the address.
pub open spec fn trusted_spec(peer: Address, nets: Seq<Network>) -> bool {
    exists|i: int| 0 <= i < nets.len() && #[trigger] contains_spec(nets[i], peer)
}

/// The entry of `X-Forwarded-For` to read as the client's address: the
/// last one, trimmed, and only when the peer is a trusted proxy that sent the
/// header.
pub open spec fn forwarded_entry_spec(peer: Address, forwarded: Option<Seq<char>>, nets: Seq<Network>) -> Option<Seq<char>> {
    if !trusted_spec(peer, nets) {
        None
    } else {
        match forwarded {
            None => None,
            Some(v) => Some(trimmed(last_entry(v))),
        }
    }
}

/// The view of an optional text.
pub open spec fn text_view(t: Option<&str>) -> Option<Seq<char>> {
    match t {
        Some(v) => Some(v@),
        None => None,
    }
}

/// Whether one of the networks holds the address.
pub fn is_trusted(peer: Address, trusted: &[Network]) -> (r: bool)
    requires
        forall|i: int| 0 <= i < trusted@.len() ==> #[trigger] trusted@[i].valid(),
    ensures
        r == trusted_spec(peer, trusted@),
{
    let mut i: usize = 0;
    while i < trusted.len()
        invariant
            i <= trusted@.len(),
            forall|k: int| 0 <= k < trusted@.len() ==> #[trigger] trusted@[k].valid(),
            forall|k: int| 0 <= k < i ==> !#[trigger] contains_spec(trusted@[k], peer),
        decreases trusted@.len() - i,
    {
        if trusted[i].contains(peer) {
            return true;
        }
        i = i + 1;
    }
    false
}

/// The entry of `X-Forwarded-For` that tells the client's address.
///
/// `forwarded` is the header as text, if it has one. It is read **only if the
/// peer is a declared trusted proxy**: a header is trivial to forge. The entry
/// kept is the **last** of the list, the one the trusted proxy has just added;
/// earlier ones may be forged by the client.
pub fn forwarded_entry<'a>(peer: Address, forwarded: Option<&'a str>, trusted: &[Network]) -> (r: Option<&'a str>)
    requires
        forall|i: int| 0 <= i < trusted@.len() ==> #[trigger] trusted@[i].valid(),
    ensures
        text_view(r) == forwarded_entry_spec(peer, text_view(forwarded), trusted@),
{
    if !is_trusted(peer, trusted) {
        return None;
    }
    match forwarded {
        None => None,
        Some(v) => {
            let n = v.unicode_len();
            let mut lo: usize = n;
            while lo > 0 && v.get_char(lo - 1) != ','
                invariant
                    lo <= n,
                    n == v@.len(),
                    forall|j: int| lo <= j < n ==> v@[j] != ',',
                decreases lo,
            {
                lo = lo - 1;
            }
            proof {
                lemma_last_entry(v@, lo as int);
            }
            Some(trim(v.substring_char(lo, n)))
        },
    }
}

/// **A client that is not a declared proxy cannot announce its own address**:
/// for a peer outside the trusted networks, no forwarded entry is read,
/// whatever the header says, so the client's address is the peer's.
pub proof fn lemma_untrusted_peer_is_the_client(
    peer: Address,
    header: Option<Seq<char>>,
    other_header: Option<Seq<char>>,
    nets: Seq<Network>,
)
    requires
        !trusted_spec(peer, nets),
    ensures
        forwarded_entry_spec(peer, header, nets) is None,
        forwarded_entry_spec(peer, header, nets) == forwarded_entry_spec(peer, other_header, nets),
        client_address_spec(peer, header, nets) == peer,
        client_address_spec(peer, other_header, nets) == peer,
{
}

/// The client's address: what its forwarded entry reads as, when it reads
/// as an address, and else the peer's.
pub fn client_ip(peer: Address, reported: Option<Address>) -> (r: Address)
    ensures
        r == (match reported {
            Some(a) => a,
            None => peer,
        }),
{
    match reported {
        Some(a) => a,
        None => peer,
    }
}

/// What `str::parse::<IpAddr>` gives for a text (the standard textual forms
/// of IPv4 and IPv6 addresses), `None` for an error.
pub uninterp spec fn address_of_text(text: Seq<char>) -> Option<Address>;

/// `str::parse::<core::net::IpAddr>`: an IPv4 address as its 32 bits, an
/// IPv6 one as its 128 (`u32::from`, `u128::from`). The grammar is the
/// standard library's; its result is only named here.
#[verifier::external_body]
fn parse_address(text: &str) -> (r: Option<Address>)
    ensures
        r == address_of_text(text@),
{
    match text.parse::<core::net::IpAddr>() {
        Ok(core::net::IpAddr::V4(a)) => Some(Address::V4(u32::from(a))),
        Ok(core::net::IpAddr::V6(a)) => Some(Address::V6(u128::from(a))),
        Err(_) => None,
    }
}

/// The client's address, from the peer's and the `X-Forwarded-For` header:
/// the trusted proxy's last entry when it reads as an address, else the peer.
pub open spec fn client_address_spec(peer: Address, forwarded: Option<Seq<char>>, nets: Seq<Network>) -> Address {
    match forwarded_entry_spec(peer, forwarded, nets) {
        Some(entry) => match address_of_text(entry) {
            Some(a) => a,
            None => peer,
        },
        None => peer,
    }
}

/// The client's address behind a reverse proxy: `X-Forwarded-For` is read
/// only from a trusted peer, and only its last entry; an entry that is no
/// address leaves the peer's.
pub fn client_address(peer: Address, forwarded: Option<&str>, trusted: &[Network]) -> (r: Address)
    requires
        forall|i: int| 0 <= i < trusted@.len() ==> #[trigger] trusted@[i].valid(),
    ensures
        r == client_address_spec(peer, text_view(forwarded), trusted@),
{
    let reported = match forwarded_entry(peer, forwarded, trusted) {
        Some(entry) => parse_address(entry),
        None => None,
    };
    client_ip(peer, reported)
}

/// The message for a piece that is no network.
pub open spec fn bad_network_message(piece: Seq<char>) -> Seq<char> {
    concat_spec(seq!["TRUSTED_PROXY_CIDRS : `"@, piece, "` invalide ("@, "invalid IP address syntax"@, ")"@])
}

/// The networks of a list of pieces, trimmed, empty ones left out; the first
/// piece that is no network is reported.
pub open spec fn networks_spec(pieces: Seq<Seq<char>>) -> Result<Seq<Network>, Seq<char>>
    decreases pieces.len(),
{
    if pieces.len() == 0 {
        Ok(Seq::empty())
    } else {
        match networks_spec(pieces.drop_last()) {
            Err(e) => Err(e),
            Ok(nets) => {
                let p = trimmed(pieces.last());
                if p.len() == 0 {
                    Ok(nets)
                } else {
                    match network_of_text(p) {
                        Some(n) => Ok(nets.push(n)),
                        None => Err(bad_network_message(p)),
                    }
                }
            },
        }
    }
}

/// Reads one piece of the list into `nets`.
fn read_piece(piece: &str, nets: &mut Vec<Network>) -> (r: Result<(), String>)
    requires
        forall|k: int| 0 <= k < old(nets)@.len() ==> #[trigger] old(nets)@[k].valid(),
    ensures
        forall|k: int| 0 <= k < final(nets)@.len() ==> #[trigger] final(nets)@[k].valid(),
        ({
            let p = trimmed(piece@);
            if p.len() == 0 {
                r is Ok && final(nets)@ == old(nets)@
            } else {
                match network_of_text(p) {
                    Some(n) => r is Ok && final(nets)@ == old(nets)@.push(n),
                    None => r matches Err(e) && e@ == bad_network_message(p),
                }
            }
        }),
{
    let p = trim(piece);
    if p.unicode_len() == 0 {
        return Ok(());
    }
    match parse_ipnet(p) {
        Ok(n) => {
            nets.push(n);
            Ok(())
        },
        Err(e) => {
            let parts = [ "TRUSTED_PROXY_CIDRS : `", p, "` invalide (", e.as_str(), ")" ];
            let msg = text_of(&parts);
            proof {
                assert(parts@.map_values(|q: &str| q@) =~= seq!["TRUSTED_PROXY_CIDRS : `"@, p@, "` invalide ("@, e@, ")"@]);
            }
            Err(msg)
        },
    }
}

/// The networks whose `X-Forwarded-For` is trusted, from a comma-separated
/// list (`TRUSTED_PROXY_CIDRS`); empty pieces are skipped, and the first
/// piece that is no network is reported.
pub fn parse_trusted_proxies(raw: &str) -> (r: Result<Vec<Network>, String>)
    ensures
        match networks_spec(split_on(raw@, ',')) {
            Ok(nets) => r matches Ok(v) && v@ == nets,
            Err(e) => r matches Err(m) && m@ == e,
        },
        r matches Ok(v) ==> forall|k: int| 0 <= k < v@.len() ==> #[trigger] v@[k].valid(),
{
    let pieces = split(raw, ',');
    let ghost all = pieces@.map_values(|p: &str| p@);
    let mut nets: Vec<Network> = Vec::new();
    let mut i: usize = 0;
    proof {
        assert(all.take(0) =~= Seq::<Seq<char>>::empty());
    }
    while i < pieces.len()
        invariant
            i <= pieces@.len(),
            all == pieces@.map_values(|p: &str| p@),
            all == split_on(raw@, ','),
            networks_spec(all.take(i as int)) == Ok::<Seq<Network>, Seq<char>>(nets@),
            forall|k: int| 0 <= k < nets@.len() ==> #[trigger] nets@[k].valid(),
        decreases pieces@.len() - i,
    {
        proof {
            assert(all.take(i + 1).drop_last() == all.take(i as int));
            assert(all.take(i + 1).last() == pieces@[i as int]@);
        }
        let ghost before = nets@;
        match read_piece(pieces[i], &mut nets) {
            Ok(()) => {},
            Err(e) => {
                proof {
                    assert(networks_spec(all.take(i as int)) == Ok::<Seq<Network>, Seq<char>>(before));
                    assert(networks_spec(all.take(i + 1)) == Err::<Seq<Network>, Seq<char>>(e@));
                    lemma_networks_err_stays(all, (i + 1) as int);
                }
                return Err(e);
            },
        }
        i = i + 1;
    }
    proof {
        assert(all.take(pieces@.len() as int) == all);
    }
    Ok(nets)
}

/// Once a piece is no network, so is the list: the first error stays.
proof fn lemma_networks_err_stays(pieces: Seq<Seq<char>>, k: int)
    requires
        0 <= k <= pieces.len(),
        networks_spec(pieces.take(k)) is Err,
    ensures
        networks_spec(pieces) == networks_spec(pieces.take(k)),
    decreases pieces.len() - k,
{
    if k < pieces.len() {
        assert(pieces.take(k + 1).drop_last() == pieces.take(k));
        lemma_networks_err_stays(pieces, k + 1);
    } else {
        assert(pieces.take(k) == pieces);
    }
}


/// **Every declared network counts, wherever it stands in the list**: when
/// any network of the list holds the peer, the peer is a trusted proxy, the
/// last entry of its `X-Forwarded-For` (trimmed) is read, and the client's
/// address is that entry's when it reads as an address, else the peer's.
/// When no network of the list holds the peer, no entry is read.
pub proof fn lemma_any_listed_network_trusts(peer: Address, nets: Seq<Network>, header: Seq<char>)
    ensures
        (exists|i: int| 0 <= i < nets.len() && #[trigger] contains_spec(nets[i], peer)) ==> {
            &&& forwarded_entry_spec(peer, Some(header), nets) == Some(trimmed(last_entry(header)))
            &&& client_address_spec(peer, Some(header), nets) == match address_of_text(trimmed(last_entry(header))) {
                Some(a) => a,
                None => peer,
            }
        },
        (forall|i: int| 0 <= i < nets.len() ==> !#[trigger] contains_spec(nets[i], peer)) ==> {
            &&& forwarded_entry_spec(peer, Some(header), nets) is None
            &&& client_address_spec(peer, Some(header), nets) == peer
        },
{
}

} // verus!
