//! Local-network peer discovery over multicast DNS.
//!
//! Inbound datagrams are parsed as DNS messages and classified: a query for
//! the libp2p service name, a query for the meta service-discovery name, or
//! a response advertising peers. Response records carry peer ids in their
//! PTR names and addresses in `dnsaddr=` TXT strings; an address counts
//! only when its trailing `p2p` component names the advertised peer.

use vstd::prelude::*;
use vstd::string::StringSliceAdditionalSpecFns;
use vstd::string::StrSliceExecFns;
use crate::peer_id::{PeerId, base58_of, valid_peer_multihash, same_peer};
use crate::multihash::multihash_parse;
use crate::util::{bytes_eq, bytes_starts_with, rfind_byte, last_byte_index, lemma_last_byte_index};

verus! {

/// The libp2p mDNS service name.
pub open spec fn spec_service_name() -> Seq<u8> {
    "_p2p._udp.local".spec_bytes()
}

/// The meta service-discovery name.
pub open spec fn spec_meta_query_service() -> Seq<u8> {
    "_services._dns-sd._udp.local".spec_bytes()
}

/// The libp2p mDNS service name, as bytes.
pub fn service_name() -> (r: Vec<u8>)
    ensures
        r@ == spec_service_name(),
{
    "_p2p._udp.local".as_bytes_vec()
}

/// The meta service-discovery name, as bytes.
pub fn meta_query_service() -> (r: Vec<u8>)
    ensures
        r@ == spec_meta_query_service(),
{
    "_services._dns-sd._udp.local".as_bytes_vec()
}

/// An IP address, protocol version and octets.
#[derive(Debug, Clone)]
pub enum IpAddress {
    /// An IPv4 address.
    V4([u8; 4]),
    /// An IPv6 address.
    V6([u8; 16]),
}

/// A socket address: an IP address and a port.
#[derive(Debug)]
pub struct SocketAddress {
    /// The IP address.
    pub ip: IpAddress,
    /// The port.
    pub port: u16,
}

/// What a resource record carries, as far as this crate reads it.
#[derive(Debug)]
pub enum DnsRecordData {
    /// A PTR record: the name it points at, in dotted text form.
    Ptr(Vec<u8>),
    /// A TXT record: its character strings, as they stand on the wire.
    Txt(Vec<Vec<u8>>),
    /// Any other record type.
    Other,
}

/// A resource record: its name in dotted text form, its time to live, and
/// its data.
#[derive(Debug)]
pub struct DnsRecord {
    /// The record name, dotted text.
    pub name: Vec<u8>,
    /// Time to live, seconds.
    pub ttl: u32,
    /// The record data.
    pub data: DnsRecordData,
}

/// A parsed DNS message, as far as the service reads it: the query flag
/// and id of the header, the question names, and the answer and
/// additional records.
pub struct DnsModel {
    /// Whether the message is a query.
    pub query: bool,
    /// The message id.
    pub id: u16,
    /// The question names, rendered dotted.
    pub questions: Vec<Vec<u8>>,
    /// The answer records.
    pub answers: Vec<DnsRecord>,
    /// The additional records.
    pub additional: Vec<DnsRecord>,
}

/// What a datagram holds as a DNS message: the model of the parse, or
/// nothing when the datagram is malformed. The parse is a function of the
/// bytes alone.
pub uninterp spec fn dns_model_of(buf: Seq<u8>) -> Option<DnsModel>;

#[verifier::external_type_specification]
#[verifier::external_body]
pub struct ExDnsResourceRecord<'a>(dns_parser::ResourceRecord<'a>);

/// Relies on the fields of `dns_parser::ResourceRecord`: each record's
/// name rendered dotted, its time to live, and its PTR or TXT data moved
/// over one for one. Serves the parse wrapper below.
#[verifier::external_body]
fn dns_records_model(records: &[dns_parser::ResourceRecord]) -> (r: Vec<DnsRecord>) {
    records.iter().map(|rec| DnsRecord {
        name: rec.name.to_string().into_bytes(),
        ttl: rec.ttl,
        data: match &rec.data {
            dns_parser::RData::PTR(n) => DnsRecordData::Ptr(n.0.to_string().into_bytes()),
            dns_parser::RData::TXT(t) => DnsRecordData::Txt(
                t.iter().map(|chunk| chunk.to_vec()).collect(),
            ),
            _ => DnsRecordData::Other,
        },
    }).collect()
}

/// Relies on `dns_parser::Packet::parse` and the parsed packet's fields:
/// the message read out of a datagram is a function of the bytes alone;
/// malformed datagrams yield nothing.
#[verifier::external_body]
fn dns_parse_model(buf: &[u8]) -> (r: Option<DnsModel>)
    ensures
        r is Some <==> dns_model_of(buf@) is Some,
        r matches Some(m) ==> dns_model_of(buf@) == Some(m),
{
    let packet = match dns_parser::Packet::parse(buf) {
        Ok(p) => p,
        Err(_) => return None,
    };
    Some(DnsModel {
        query: packet.header.query,
        id: packet.header.id,
        questions: packet.questions.iter().map(|q| q.qname.to_string().into_bytes()).collect(),
        answers: dns_records_model(&packet.answers),
        additional: dns_records_model(&packet.additional),
    })
}

/// Whether some name in `names` equals `wanted`.
pub open spec fn spec_contains_name(names: Seq<Vec<u8>>, wanted: Seq<u8>) -> bool {
    exists|k: int| 0 <= k < names.len() && names[k]@ == wanted
}

/// Looks for `wanted` among `names`.
fn contains_name(names: &Vec<Vec<u8>>, wanted: &[u8]) -> (r: bool)
    ensures
        r == spec_contains_name(names@, wanted@),
{
    let n = names.len();
    let mut k: usize = 0;
    while k < n
        invariant
            n == names@.len(),
            k <= n,
            forall|j: int| 0 <= j < k ==> names@[j]@ != wanted@,
        decreases n - k,
    {
        if bytes_eq(names[k].as_slice(), wanted) {
            return true;
        }
        k = k + 1;
    }
    false
}

/// What a DNS character string holds: an empty input stands for no data,
/// and otherwise the first byte must give the length of the rest.
pub open spec fn char_string_content(s: Seq<u8>) -> Option<Seq<u8>> {
    if s.len() == 0 {
        Some(Seq::empty())
    } else if s[0] as int == s.len() - 1 {
        Some(s.skip(1))
    } else {
        None
    }
}

/// Decodes a DNS character string: a length byte followed by that many
/// bytes, or empty.
pub fn decode_character_string(s: &[u8]) -> (r: Option<Vec<u8>>)
    ensures
        match r {
            Some(v) => char_string_content(s@) == Some(v@),
            None => char_string_content(s@) is None,
        },
{
    if s.len() == 0 {
        return Some(Vec::new());
    }
    let len = s[0] as usize;
    if len != s.len() - 1 {
        return None;
    }
    let v = vstd::slice::slice_to_vec(vstd::slice::slice_subrange(s, 1, s.len()));
    assert(v@ =~= s@.skip(1));
    Some(v)
}

/// The `dnsaddr=` key that address-bearing TXT strings start with.
pub open spec fn spec_dnsaddr_prefix() -> Seq<u8> {
    seq![100u8, 110u8, 115u8, 97u8, 100u8, 100u8, 114u8, 61u8]
}

/// The `dnsaddr=` key, as bytes.
fn dnsaddr_prefix() -> (r: Vec<u8>)
    ensures
        r@ == spec_dnsaddr_prefix(),
{
    let mut v: Vec<u8> = Vec::new();
    v.push(100);
    v.push(110);
    v.push(115);
    v.push(97);
    v.push(100);
    v.push(100);
    v.push(114);
    v.push(61);
    assert(v@ =~= spec_dnsaddr_prefix());
    v
}

/// The encoded form that data_encoding's `BASE32_DNSCURVE` gives a byte
/// string.
pub uninterp spec fn base32_dnscurve_of(data: Seq<u8>) -> Seq<u8>;

/// What data_encoding's `BASE32_DNSCURVE` decoder makes of a byte string:
/// the decoded bytes, or nothing when the input is rejected. The decoder
/// translates letter case before reading, so it accepts more inputs than
/// the encoder ever outputs.
pub uninterp spec fn base32_dnscurve_decode_of(s: Seq<u8>) -> Option<Seq<u8>>;

/// Relies on data_encoding's `BASE32_DNSCURVE` decoder: the result is a
/// function of the input alone, and the encoder's exact output always
/// decodes back to the bytes it came from.
#[verifier::external_body]
fn dnscurve_decode(s: &[u8]) -> (r: Option<Vec<u8>>)
    ensures
        r is Some <==> base32_dnscurve_decode_of(s@) is Some,
        r matches Some(v) ==> base32_dnscurve_decode_of(s@) == Some(v@),
        forall|b: Seq<u8>| s@ == base32_dnscurve_of(b) ==> (r is Some && r->Some_0@ == b),
{
    data_encoding::BASE32_DNSCURVE.decode(s).ok()
}

/// The bytes of `s` with every dot removed.
pub open spec fn remove_dots(s: Seq<u8>) -> Seq<u8>
    decreases s.len(),
{
    if s.len() == 0 {
        Seq::empty()
    } else if s.last() == 46 {
        remove_dots(s.drop_last())
    } else {
        remove_dots(s.drop_last()) + seq![s.last()]
    }
}

/// What remains of `s` after cutting, from the right, up to `k`
/// dot-separated labels together with their dots.
pub open spec fn rsplit_prefix(s: Seq<u8>, k: nat) -> Seq<u8>
    decreases k,
{
    if k == 0 {
        s
    } else {
        let i = last_byte_index(s, 46);
        if i < 0 {
            s
        } else {
            rsplit_prefix(s.take(i), (k - 1) as nat)
        }
    }
}

/// The peer-id token inside a PTR name: everything before the right-most
/// three labels, with remaining dots stripped.
pub open spec fn peer_name_of(s: Seq<u8>) -> Seq<u8> {
    remove_dots(rsplit_prefix(s, 3))
}

/// Strips every dot out of `s`.
fn strip_dots(s: &[u8]) -> (r: Vec<u8>)
    ensures
        r@ == remove_dots(s@),
{
    let n = s.len();
    let mut out: Vec<u8> = Vec::new();
    let mut i: usize = 0;
    while i < n
        invariant
            n == s@.len(),
            i <= n,
            out@ == remove_dots(s@.take(i as int)),
        decreases n - i,
    {
        assert(s@.take(i + 1).drop_last() =~= s@.take(i as int));
        assert(s@.take(i + 1).last() == s@[i as int]);
        if s[i] != 46 {
            out.push(s[i]);
        }
        i = i + 1;
    }
    assert(s@.take(n as int) =~= s@);
    out
}

/// Cuts, from the right, up to three dot-separated labels off `s`.
fn rsplit3<'a>(s: &'a [u8]) -> (r: &'a [u8])
    ensures
        r@ == rsplit_prefix(s@, 3),
{
    proof {
        lemma_last_byte_index(s@, 46);
    }
    let s1 = match rfind_byte(s, 46) {
        Some(i) => vstd::slice::slice_subrange(s, 0, i),
        None => {
            assert(rsplit_prefix(s@, 3) == s@);
            return s;
        },
    };
    assert(s1@ =~= s@.take(last_byte_index(s@, 46)));
    assert(rsplit_prefix(s@, 3) == rsplit_prefix(s1@, 2));
    proof {
        lemma_last_byte_index(s1@, 46);
    }
    let s2 = match rfind_byte(s1, 46) {
        Some(i) => vstd::slice::slice_subrange(s1, 0, i),
        None => {
            assert(rsplit_prefix(s1@, 2) == s1@);
            return s1;
        },
    };
    assert(s2@ =~= s1@.take(last_byte_index(s1@, 46)));
    assert(rsplit_prefix(s1@, 2) == rsplit_prefix(s2@, 1));
    proof {
        lemma_last_byte_index(s2@, 46);
    }
    let s3 = match rfind_byte(s2, 46) {
        Some(i) => vstd::slice::slice_subrange(s2, 0, i),
        None => {
            assert(rsplit_prefix(s2@, 1) == s2@);
            return s2;
        },
    };
    assert(s3@ =~= s2@.take(last_byte_index(s2@, 46)));
    assert(rsplit_prefix(s2@, 1) == rsplit_prefix(s3@, 0));
    s3
}

/// Whether the `p2p` component value `tok` is the base-58 form of exactly
/// the multihash with the given code and digest.
pub open spec fn token_names_peer(tok: Seq<u8>, code: u64, digest: Seq<u8>) -> bool {
    &&& forall|i: int| 0 <= i < tok.len() ==> tok[i] < 128
    &&& exists|b: Seq<u8>|
        tok.map_values(|x: u8| x as char) == base58_of(b) && multihash_parse(b) == Some(
            (code, digest),
        )
}

/// Decides whether `tok` is the base-58 form of the multihash of `peer`.
fn token_names_this_peer(tok: &[u8], peer: &PeerId) -> (r: bool)
    ensures
        r == token_names_peer(tok@, peer.spec_code(), peer.spec_digest()),
{
    let n = tok.len();
    let mut i: usize = 0;
    while i < n
        invariant
            n == tok@.len(),
            i <= n,
            forall|j: int| 0 <= j < i ==> tok@[j] < 128,
        decreases n - i,
    {
        if tok[i] >= 128 {
            return false;
        }
        i = i + 1;
    }
    let text = crate::util::ascii_to_string(vstd::slice::slice_to_vec(tok));
    assert(text@ == tok@.map_values(|x: u8| x as char));
    let decoded = match crate::peer_id::base58_decode_str(text.as_str()) {
        Ok(v) => v,
        Err(_) => {
            proof {
                if token_names_peer(tok@, peer.spec_code(), peer.spec_digest()) {
                    let b = choose|b: Seq<u8>|
                        tok@.map_values(|x: u8| x as char) == base58_of(b) && multihash_parse(b)
                            == Some((peer.spec_code(), peer.spec_digest()));
                    assert(text@ == base58_of(b));
                }
            }
            return false;
        },
    };
    match crate::peer_id::PeerId::from_bytes(decoded.as_slice()) {
        Ok(p2) => {
            let r = p2.eq_peer(peer);
            proof {
                if r {
                    assert(text@ == base58_of(decoded@));
                    assert(multihash_parse(decoded@) == Some(
                        (p2.spec_code(), p2.spec_digest()),
                    ));
                    assert((p2.spec_code(), p2.spec_digest()) == (
                        peer.spec_code(),
                        peer.spec_digest(),
                    ));
                    assert(tok@.map_values(|x: u8| x as char) == base58_of(decoded@)
                        && multihash_parse(decoded@) == Some(
                        (peer.spec_code(), peer.spec_digest()),
                    ));
                    assert(token_names_peer(tok@, peer.spec_code(), peer.spec_digest()));
                } else {
                    if token_names_peer(tok@, peer.spec_code(), peer.spec_digest()) {
                        let b = choose|b: Seq<u8>|
                            tok@.map_values(|x: u8| x as char) == base58_of(b) && multihash_parse(
                                b,
                            ) == Some((peer.spec_code(), peer.spec_digest()));
                        assert(decoded@ == b);
                        assert(multihash_parse(decoded@) == Some(
                            (peer.spec_code(), peer.spec_digest()),
                        ));
                        assert(p2.spec_code() == peer.spec_code() && p2.spec_digest()
                            == peer.spec_digest());
                        assert(false);
                    }
                    assert(!token_names_peer(tok@, peer.spec_code(), peer.spec_digest()));
                }
            }
            r
        },
        Err(_) => {
            proof {
                use_type_invariant(peer);
                if token_names_peer(tok@, peer.spec_code(), peer.spec_digest()) {
                    let b = choose|b: Seq<u8>|
                        tok@.map_values(|x: u8| x as char) == base58_of(b) && multihash_parse(b)
                            == Some((peer.spec_code(), peer.spec_digest()));
                    assert(decoded@ == b);
                }
            }
            false
        },
    }
}

/// Whether TXT character string `chunk` advertises an address of `peer`
/// whose form after popping the `p2p` component is `base`: the chunk must
/// decode, start with `dnsaddr=`, parse as a multiaddress, and end in a
/// `p2p` component naming exactly `peer`.
pub open spec fn chunk_gives_addr(chunk: Seq<u8>, code: u64, digest: Seq<u8>, base: Seq<u8>) -> bool {
    match char_string_content(chunk) {
        Some(content) => {
            &&& content.len() >= 8
            &&& content.take(8) == spec_dnsaddr_prefix()
            &&& ({
                let at = content.skip(8);
                &&& at.len() > 0
                &&& at[0] == 47
                &&& match crate::multiaddr::split_p2p(at) {
                    Some((b2, tok)) => base == b2 && token_names_peer(tok, code, digest),
                    None => false,
                }
            })
        },
        None => false,
    }
}

/// Whether a record is a TXT record.
pub open spec fn record_is_txt(rec: DnsRecord) -> bool {
    rec.data matches DnsRecordData::Txt(_)
}

/// The character strings of a TXT record; empty for any other record.
pub open spec fn record_chunks(rec: DnsRecord) -> Seq<Vec<u8>> {
    match rec.data {
        DnsRecordData::Txt(chunks) => chunks@,
        DnsRecordData::Ptr(_) => Seq::empty(),
        DnsRecordData::Other => Seq::empty(),
    }
}

/// Whether TXT record `rec` advertises, for `peer`, an address whose
/// popped form is `base`.
pub open spec fn record_gives_addr(rec: DnsRecord, code: u64, digest: Seq<u8>, base: Seq<u8>) -> bool {
    record_is_txt(rec) && exists|c: int|
        0 <= c < record_chunks(rec).len() && chunk_gives_addr(
            #[trigger] record_chunks(rec)[c]@,
            code,
            digest,
            base,
        )
}

/// Every kept address is justified by some additional record under the
/// response's PTR name.
pub open spec fn peer_addrs_sound(
    addrs: Seq<crate::multiaddr::Multiaddr>,
    additional: Seq<DnsRecord>,
    record_value: Seq<u8>,
    code: u64,
    digest: Seq<u8>,
) -> bool {
    forall|j: int| 0 <= j < addrs.len() ==> exists|k: int|
        0 <= k < additional.len() && additional[k].name@ == record_value && record_gives_addr(
            #[trigger] additional[k],
            code,
            digest,
            (#[trigger] addrs[j]).spec_text(),
        )
}

/// Every address advertised for the peer by a matching additional record
/// is kept.
pub open spec fn peer_addrs_complete(
    addrs: Seq<crate::multiaddr::Multiaddr>,
    additional: Seq<DnsRecord>,
    record_value: Seq<u8>,
    code: u64,
    digest: Seq<u8>,
) -> bool {
    forall|k: int, base: Seq<u8>|
        (0 <= k < additional.len() && additional[k].name@ == record_value
            && #[trigger] record_gives_addr(additional[k], code, digest, base)) ==> exists|j: int|
            0 <= j < addrs.len() && (#[trigger] addrs[j]).spec_text() == base
}

/// A peer discovered by the service: its id, the advertised time to live,
/// and the addresses whose trailing `p2p` component named the peer.
#[derive(Debug)]
pub struct MdnsPeer {
    addrs: Vec<crate::multiaddr::Multiaddr>,
    peer_id: PeerId,
    ttl: u32,
}

impl MdnsPeer {
    /// The discovered peer's id.
    pub closed spec fn spec_id(&self) -> PeerId {
        self.peer_id
    }

    /// The advertised time to live, in seconds.
    pub closed spec fn spec_ttl(&self) -> u32 {
        self.ttl
    }

    /// The addresses kept, already stripped of their `p2p` component.
    pub closed spec fn spec_addrs(&self) -> Seq<crate::multiaddr::Multiaddr> {
        self.addrs@
    }

    /// Builds a discovered peer out of the additional records of a response:
    /// the kept addresses are exactly those advertised under `record_value`
    /// in `dnsaddr=` TXT strings whose trailing `p2p` component names
    /// `my_peer_id`.
    #[verifier::loop_isolation(false)]
    pub fn new(
        additional: &Vec<DnsRecord>,
        record_value: &Vec<u8>,
        my_peer_id: PeerId,
        ttl: u32,
    ) -> (r: MdnsPeer)
        ensures
            same_peer(r.spec_id(), my_peer_id),
            r.spec_ttl() == ttl,
            peer_addrs_sound(
                r.spec_addrs(),
                additional@,
                record_value@,
                my_peer_id.spec_code(),
                my_peer_id.spec_digest(),
            ),
            peer_addrs_complete(
                r.spec_addrs(),
                additional@,
                record_value@,
                my_peer_id.spec_code(),
                my_peer_id.spec_digest(),
            ),
    {
        let mut addrs: Vec<crate::multiaddr::Multiaddr> = Vec::new();
        let nrec = additional.len();
        let mut k: usize = 0;
        while k < nrec
            invariant
                nrec == additional@.len(),
                k <= nrec,
                peer_addrs_sound(addrs@, additional@, record_value@, my_peer_id.spec_code(), my_peer_id.spec_digest()),
                forall|k2: int, base: Seq<u8>|
                    (0 <= k2 < k && additional@[k2].name@ == record_value@
                        && #[trigger] record_gives_addr(additional@[k2], my_peer_id.spec_code(), my_peer_id.spec_digest(), base))
                        ==> exists|j: int|
                        0 <= j < addrs@.len() && (#[trigger] addrs@[j]).spec_text() == base,
            decreases nrec - k,
        {
            let rec = &additional[k];
            if bytes_eq(rec.name.as_slice(), record_value.as_slice()) {
                match &rec.data {
                    DnsRecordData::Txt(chunks) => {
                        let nch = chunks.len();
                        let mut c: usize = 0;
                        while c < nch
                            invariant
                                nrec == additional@.len(),
                                k < nrec,
                                nch == chunks@.len(),
                                c <= nch,
                                additional@[k as int].name@ == record_value@,
                                record_is_txt(additional@[k as int]),
                                record_chunks(additional@[k as int]) == chunks@,
                                peer_addrs_sound(addrs@, additional@, record_value@, my_peer_id.spec_code(), my_peer_id.spec_digest()),
                                forall|k2: int, base: Seq<u8>|
                                    (0 <= k2 < k && additional@[k2].name@ == record_value@
                                        && #[trigger] record_gives_addr(
                                        additional@[k2],
                                        my_peer_id.spec_code(),
                                        my_peer_id.spec_digest(),
                                        base,
                                    )) ==> exists|j: int|
                                        0 <= j < addrs@.len() && (#[trigger] addrs@[j]).spec_text()
                                            == base,
                                forall|c2: int, base: Seq<u8>|
                                    (0 <= c2 < c && #[trigger] chunk_gives_addr(
                                        chunks@[c2]@,
                                        my_peer_id.spec_code(),
                                        my_peer_id.spec_digest(),
                                        base,
                                    )) ==> exists|j: int|
                                        0 <= j < addrs@.len() && (#[trigger] addrs@[j]).spec_text()
                                            == base,
                            decreases nch - c,
                        {
                            let ghost addrs_pre = addrs@;
                            let chunk = &chunks[c];
                            assert(chunk@ == chunks@[c as int]@);
                            let kept = Self::consider_chunk(chunk, &my_peer_id, &mut addrs);
                            proof {
                                if kept {
                                    assert(addrs@.len() == addrs_pre.len() + 1);
                                    assert(chunk_gives_addr(
                                        chunks@[c as int]@,
                                        my_peer_id.spec_code(),
                                        my_peer_id.spec_digest(),
                                        addrs@.last().spec_text(),
                                    ));
                                    assert(chunk_gives_addr(
                                        record_chunks(additional@[k as int])[c as int]@,
                                        my_peer_id.spec_code(),
                                        my_peer_id.spec_digest(),
                                        addrs@.last().spec_text(),
                                    ));
                                    assert(record_gives_addr(
                                        additional@[k as int],
                                        my_peer_id.spec_code(),
                                        my_peer_id.spec_digest(),
                                        addrs@.last().spec_text(),
                                    ));
                                    assert(forall|j: int| 0 <= j < addrs_pre.len()
                                        ==> addrs@[j] == addrs_pre[j]);
                                } else {
                                    assert(addrs@ == addrs_pre);
                                    assert(forall|base: Seq<u8>| !chunk_gives_addr(
                                        chunks@[c as int]@,
                                        my_peer_id.spec_code(),
                                        my_peer_id.spec_digest(),
                                        base,
                                    ));
                                }
                            }
                            c = c + 1;
                        }
                        proof {
                            assert forall|base: Seq<u8>| #[trigger] record_gives_addr(
                                additional@[k as int],
                                my_peer_id.spec_code(),
                                my_peer_id.spec_digest(),
                                base,
                            ) implies exists|j: int|
                                0 <= j < addrs@.len() && (#[trigger] addrs@[j]).spec_text()
                                    == base by {
                                let c2 = choose|c2: int|
                                    0 <= c2 < record_chunks(additional@[k as int]).len()
                                        && chunk_gives_addr(
                                        #[trigger] record_chunks(additional@[k as int])[c2]@,
                                        my_peer_id.spec_code(),
                                        my_peer_id.spec_digest(),
                                        base,
                                    );
                                assert(chunk_gives_addr(
                                    chunks@[c2]@,
                                    my_peer_id.spec_code(),
                                    my_peer_id.spec_digest(),
                                    base,
                                ));
                            }
                        }
                    },
                    DnsRecordData::Ptr(_) => {
                    },
                    DnsRecordData::Other => {
                    },
                }
            }
            k = k + 1;
        }
        let ghost addrs_final = addrs@;
        proof {
            assert(peer_addrs_sound(
                addrs_final,
                additional@,
                record_value@,
                my_peer_id.spec_code(),
                my_peer_id.spec_digest(),
            ));
            assert(peer_addrs_complete(
                addrs_final,
                additional@,
                record_value@,
                my_peer_id.spec_code(),
                my_peer_id.spec_digest(),
            )) by {
                assert forall|k2: int, base: Seq<u8>|
                    (0 <= k2 < additional@.len() && additional@[k2].name@ == record_value@
                        && #[trigger] record_gives_addr(
                        additional@[k2],
                        my_peer_id.spec_code(),
                        my_peer_id.spec_digest(),
                        base,
                    )) implies exists|j: int|
                    0 <= j < addrs_final.len() && (#[trigger] addrs_final[j]).spec_text()
                        == base by {}
            }
        }
        let result = MdnsPeer { addrs, peer_id: my_peer_id, ttl };
        proof {
            assert(result.spec_addrs() == addrs_final);
        }
        result
    }

    /// Weighs one TXT character string: pushes the popped address when it
    /// advertises `peer`, reporting whether it did.
    fn consider_chunk(
        chunk: &Vec<u8>,
        peer: &PeerId,
        addrs: &mut Vec<crate::multiaddr::Multiaddr>,
    ) -> (kept: bool)
        ensures
            kept ==> final(addrs)@.len() == old(addrs)@.len() + 1 && (forall|j: int|
                0 <= j < old(addrs)@.len() ==> final(addrs)@[j] == old(addrs)@[j])
                && chunk_gives_addr(
                chunk@,
                peer.spec_code(),
                peer.spec_digest(),
                final(addrs)@.last().spec_text(),
            ),
            !kept ==> final(addrs)@ == old(addrs)@ && (forall|base: Seq<u8>|
                !chunk_gives_addr(chunk@, peer.spec_code(), peer.spec_digest(), base)),
    {
        let content = match decode_character_string(chunk.as_slice()) {
            Some(v) => v,
            None => {
                return false;
            },
        };
        let prefix = dnsaddr_prefix();
        if !bytes_starts_with(content.as_slice(), prefix.as_slice()) {
            return false;
        }
        assert(content@.len() >= 8 && content@.take(8) == spec_dnsaddr_prefix());
        let at = vstd::slice::slice_to_vec(
            vstd::slice::slice_subrange(content.as_slice(), 8, content.len()),
        );
        assert(at@ =~= content@.skip(8));
        let ghost at_view = at@;
        let ma = match crate::multiaddr::Multiaddr::parse(at) {
            Some(ma) => ma,
            None => {
                return false;
            },
        };
        let (base, tok) = match ma.pop_p2p() {
            Some(p) => p,
            None => {
                return false;
            },
        };
        if token_names_this_peer(tok.as_slice(), peer) {
            let ghost base_text = base.spec_text();
            addrs.push(base);
            proof {
                assert(crate::multiaddr::split_p2p(at_view) == Some((base_text, tok@)));
                assert(chunk_gives_addr(chunk@, peer.spec_code(), peer.spec_digest(), base_text));
                assert(final(addrs)@.last().spec_text() == base_text);
            }
            true
        } else {
            return false;
        }
    }

    /// The discovered peer's id.
    pub fn id(&self) -> (r: &PeerId)
        ensures
            *r == self.spec_id(),
    {
        &self.peer_id
    }

    /// The advertised time to live, in seconds.
    pub fn ttl(&self) -> (r: u64)
        ensures
            r == self.spec_ttl(),
    {
        self.ttl as u64
    }

    /// The addresses the peer says it listens on, invalid ones dropped.
    pub fn addresses(&self) -> (r: &Vec<crate::multiaddr::Multiaddr>)
        ensures
            r@ == self.spec_addrs(),
    {
        &self.addrs
    }
}

/// Whether a record is a PTR record.
pub open spec fn record_is_ptr(rec: DnsRecord) -> bool {
    rec.data matches DnsRecordData::Ptr(_)
}

/// The name a PTR record points at; empty for any other record.
pub open spec fn record_ptr_value(rec: DnsRecord) -> Seq<u8> {
    match rec.data {
        DnsRecordData::Ptr(v) => v@,
        DnsRecordData::Txt(_) => Seq::empty(),
        DnsRecordData::Other => Seq::empty(),
    }
}

/// Whether answer record `rec` advertises peer `p`: it carries the service
/// name, points at a name whose peer-id token decodes to exactly the
/// multihash of `p`.
pub open spec fn answer_peer(rec: DnsRecord, code: u64, digest: Seq<u8>) -> bool {
    &&& rec.name@ == spec_service_name()
    &&& record_is_ptr(rec)
    &&& (base32_dnscurve_decode_of(peer_name_of(record_ptr_value(rec))) matches Some(b)
        && multihash_parse(b) == Some((code, digest)))
}

/// Whether answer record `rec` advertises any valid peer.
pub open spec fn answer_yields(rec: DnsRecord) -> bool {
    &&& rec.name@ == spec_service_name()
    &&& record_is_ptr(rec)
    &&& (base32_dnscurve_decode_of(peer_name_of(record_ptr_value(rec))) matches Some(b) && (
    multihash_parse(b) matches Some((code, digest)) && valid_peer_multihash(code, digest.len())))
}

/// Every reported peer is advertised by some answer record, carries that
/// record's time to live, and keeps exactly the addresses the additional
/// records advertise for it.
pub open spec fn response_peers_sound(
    peers: Seq<MdnsPeer>,
    answers: Seq<DnsRecord>,
    additional: Seq<DnsRecord>,
) -> bool {
    forall|j: int| 0 <= j < peers.len() ==> exists|k: int|
        0 <= k < answers.len() && answer_peer(
            #[trigger] answers[k],
            (#[trigger] peers[j]).spec_id().spec_code(),
            peers[j].spec_id().spec_digest(),
        ) && peers[j].spec_ttl() == answers[k].ttl && peer_addrs_sound(
            peers[j].spec_addrs(),
            additional,
            record_ptr_value(answers[k]),
            peers[j].spec_id().spec_code(),
            peers[j].spec_id().spec_digest(),
        ) && peer_addrs_complete(
            peers[j].spec_addrs(),
            additional,
            record_ptr_value(answers[k]),
            peers[j].spec_id().spec_code(),
            peers[j].spec_id().spec_digest(),
        )
}

/// How many of the first `upto` answer records advertise a valid peer.
pub open spec fn count_yields(answers: Seq<DnsRecord>, upto: int) -> nat
    decreases upto,
{
    if upto <= 0 {
        0
    } else {
        count_yields(answers, upto - 1) + (if answer_yields(answers[upto - 1]) {
            1nat
        } else {
            0nat
        })
    }
}

/// The yield count never shrinks as more records are considered.
pub proof fn lemma_count_yields_monotone(answers: Seq<DnsRecord>, a: int, b: int)
    requires
        a <= b,
    ensures
        count_yields(answers, a) <= count_yields(answers, b),
    decreases b - a,
{
    if a < b {
        lemma_count_yields_monotone(answers, a, b - 1);
    }
}

/// Whether reported peer `p` is exactly what answer record `rec` and the
/// additional records advertise.
pub open spec fn peer_matches_record(p: MdnsPeer, rec: DnsRecord, additional: Seq<DnsRecord>) -> bool {
    &&& answer_peer(rec, p.spec_id().spec_code(), p.spec_id().spec_digest())
    &&& p.spec_ttl() == rec.ttl
    &&& peer_addrs_sound(
        p.spec_addrs(),
        additional,
        record_ptr_value(rec),
        p.spec_id().spec_code(),
        p.spec_id().spec_digest(),
    )
    &&& peer_addrs_complete(
        p.spec_addrs(),
        additional,
        record_ptr_value(rec),
        p.spec_id().spec_code(),
        p.spec_id().spec_digest(),
    )
}

/// The reported peers correspond one to one, in order, to the answer
/// records that advertise a valid peer: there are exactly as many peers as
/// such records, and the record with `k` yielding records before it feeds
/// the peer at position `k`.
pub open spec fn response_peers_exact(
    peers: Seq<MdnsPeer>,
    answers: Seq<DnsRecord>,
    additional: Seq<DnsRecord>,
) -> bool {
    &&& peers.len() == count_yields(answers, answers.len() as int)
    &&& forall|k: int|
        0 <= k < answers.len() && #[trigger] answer_yields(answers[k]) ==> (count_yields(answers, k)
            < peers.len() && peer_matches_record(
            peers[count_yields(answers, k) as int],
            answers[k],
            additional,
        ))
}

/// Every answer record that advertises a valid peer is reported.
pub open spec fn response_peers_complete(peers: Seq<MdnsPeer>, answers: Seq<DnsRecord>) -> bool {
    forall|k: int|
        0 <= k < answers.len() && answer_yields(#[trigger] answers[k]) ==> exists|j: int|
            0 <= j < peers.len() && answer_peer(
                answers[k],
                (#[trigger] peers[j]).spec_id().spec_code(),
                peers[j].spec_id().spec_digest(),
            )
}

/// A received mDNS response: the advertised peers and the sender.
#[derive(Debug)]
pub struct MdnsResponse {
    peers: Vec<MdnsPeer>,
    from: SocketAddress,
}

impl MdnsResponse {
    /// The peers this response advertises.
    pub closed spec fn spec_peers(&self) -> Seq<MdnsPeer> {
        self.peers@
    }

    /// The sender's address.
    pub closed spec fn spec_from(&self) -> SocketAddress {
        self.from
    }

    /// Builds a response out of the answer and additional records: one
    /// reported peer per answer PTR record under the service name whose
    /// peer-id token parses, each with the addresses advertised for it.
    #[verifier::loop_isolation(false)]
    pub fn new(
        answers: &Vec<DnsRecord>,
        additional: &Vec<DnsRecord>,
        from: SocketAddress,
    ) -> (r: MdnsResponse)
        ensures
            r.spec_from() == from,
            response_peers_exact(r.spec_peers(), answers@, additional@),
            response_peers_sound(r.spec_peers(), answers@, additional@),
            response_peers_complete(r.spec_peers(), answers@),
    {
        let mut peers: Vec<MdnsPeer> = Vec::new();
        let sname = service_name();
        let n = answers.len();
        let mut k: usize = 0;
        while k < n
            invariant
                n == answers@.len(),
                k <= n,
                sname@ == spec_service_name(),
                response_peers_sound(peers@, answers@, additional@),
                peers@.len() == count_yields(answers@, k as int),
                forall|k2: int|
                    0 <= k2 < k && #[trigger] answer_yields(answers@[k2]) ==> (count_yields(
                        answers@,
                        k2,
                    ) < peers@.len() && peer_matches_record(
                        peers@[count_yields(answers@, k2) as int],
                        answers@[k2],
                        additional@,
                    )),
                forall|k2: int|
                    0 <= k2 < k && answer_yields(#[trigger] answers@[k2]) ==> exists|j: int|
                        0 <= j < peers@.len() && answer_peer(
                            answers@[k2],
                            (#[trigger] peers@[j]).spec_id().spec_code(),
                            peers@[j].spec_id().spec_digest(),
                        ),
            decreases n - k,
        {
            let ghost peers_pre = peers@;
            let rec = &answers[k];
            let kept = Self::consider_answer(rec, additional, &sname, &mut peers);
            proof {
                assert(count_yields(answers@, k + 1) == count_yields(answers@, k as int) + (
                if answer_yields(answers@[k as int]) {
                    1nat
                } else {
                    0nat
                }));
                if kept {
                    assert(peers@.len() == peers_pre.len() + 1);
                    assert(forall|j: int| 0 <= j < peers_pre.len() ==> peers@[j] == peers_pre[j]);
                    assert(peer_matches_record(peers@.last(), answers@[k as int], additional@));
                    assert(peers@[count_yields(answers@, k as int) as int] == peers@.last());
                    assert(answer_peer(
                        answers@[k as int],
                        peers@.last().spec_id().spec_code(),
                        peers@.last().spec_id().spec_digest(),
                    ));
                } else {
                    assert(peers@ == peers_pre);
                    assert(!answer_yields(answers@[k as int]));
                }
            }
            k = k + 1;
        }
        let ghost peers_final = peers@;
        proof {
            assert(response_peers_exact(peers_final, answers@, additional@));
            assert(response_peers_sound(peers_final, answers@, additional@));
            assert(response_peers_complete(peers_final, answers@));
        }
        let result = MdnsResponse { peers, from };
        proof {
            assert(result.spec_peers() == peers_final);
        }
        result
    }

    /// Weighs one answer record: reports the peer it advertises, saying
    /// whether it did.
    #[verifier::loop_isolation(false)]
    fn consider_answer(
        rec: &DnsRecord,
        additional: &Vec<DnsRecord>,
        sname: &Vec<u8>,
        peers: &mut Vec<MdnsPeer>,
    ) -> (kept: bool)
        requires
            sname@ == spec_service_name(),
        ensures
            kept ==> final(peers)@.len() == old(peers)@.len() + 1 && (forall|j: int|
                0 <= j < old(peers)@.len() ==> final(peers)@[j] == old(peers)@[j]) && answer_peer(
                *rec,
                final(peers)@.last().spec_id().spec_code(),
                final(peers)@.last().spec_id().spec_digest(),
            ) && final(peers)@.last().spec_ttl() == rec.ttl && peer_addrs_sound(
                final(peers)@.last().spec_addrs(),
                additional@,
                record_ptr_value(*rec),
                final(peers)@.last().spec_id().spec_code(),
                final(peers)@.last().spec_id().spec_digest(),
            ) && peer_addrs_complete(
                final(peers)@.last().spec_addrs(),
                additional@,
                record_ptr_value(*rec),
                final(peers)@.last().spec_id().spec_code(),
                final(peers)@.last().spec_id().spec_digest(),
            ),
            !kept ==> final(peers)@ == old(peers)@,
            kept == answer_yields(*rec),
    {
        if !bytes_eq(rec.name.as_slice(), sname.as_slice()) {
            return false;
        }
        let record_value = match &rec.data {
            DnsRecordData::Ptr(v) => v,
            DnsRecordData::Txt(_) => {
                return false;
            },
            DnsRecordData::Other => {
                return false;
            },
        };
        let peer_name = strip_dots(rsplit3(record_value.as_slice()));
        assert(peer_name@ == peer_name_of(record_ptr_value(*rec)));
        let bytes = match dnscurve_decode(peer_name.as_slice()) {
            Some(v) => v,
            None => {
                return false;
            },
        };
        match PeerId::from_bytes(bytes.as_slice()) {
            Ok(pid) => {
                let ghost pid_ghost = pid;
                let peer = MdnsPeer::new(additional, record_value, pid, rec.ttl);
                proof {
                    assert(base32_dnscurve_decode_of(peer_name_of(record_ptr_value(*rec)))
                        == Some(bytes@));
                    assert(multihash_parse(bytes@) == Some(
                        (pid_ghost.spec_code(), pid_ghost.spec_digest()),
                    ));
                    assert(answer_peer(*rec, pid_ghost.spec_code(), pid_ghost.spec_digest()));
                    assert(answer_yields(*rec));
                    assert(peer.spec_id().spec_code() == pid_ghost.spec_code()
                        && peer.spec_id().spec_digest() == pid_ghost.spec_digest());
                }
                peers.push(peer);
                true
            },
            Err(_) => {
                proof {
                    assert(base32_dnscurve_decode_of(peer_name_of(record_ptr_value(*rec)))
                        == Some(bytes@));
                    assert(!answer_yields(*rec));
                }
                false
            },
        }
    }

    /// The peers reported in this response. This also holds responses this
    /// node sent itself.
    pub fn discovered_peers(&self) -> (r: &Vec<MdnsPeer>)
        ensures
            r@ == self.spec_peers(),
    {
        &self.peers
    }

    /// The sender's address.
    pub fn remote_addr(&self) -> (r: &SocketAddress)
        ensures
            *r == self.spec_from(),
    {
        &self.from
    }
}

/// A received mDNS query for the libp2p service name.
#[derive(Debug)]
pub struct MdnsQuery {
    from: SocketAddress,
    query_id: u16,
}

impl MdnsQuery {
    /// The sender's address.
    pub closed spec fn spec_from(&self) -> SocketAddress {
        self.from
    }

    /// The sender's address.
    pub fn remote_addr(&self) -> (r: &SocketAddress)
        ensures
            *r == self.spec_from(),
    {
        &self.from
    }

    /// The id of the query, to pass back in the answer.
    pub closed spec fn spec_query_id(&self) -> u16 {
        self.query_id
    }

    /// The id of the query, to pass back in the answer.
    pub fn query_id(&self) -> (r: u16)
        ensures
            r == self.spec_query_id(),
    {
        self.query_id
    }
}

/// A received mDNS query for the meta service-discovery name.
#[derive(Debug)]
pub struct MdnsServiceDiscovery {
    from: SocketAddress,
    query_id: u16,
}

impl MdnsServiceDiscovery {
    /// The sender's address.
    pub closed spec fn spec_from(&self) -> SocketAddress {
        self.from
    }

    /// The sender's address.
    pub fn remote_addr(&self) -> (r: &SocketAddress)
        ensures
            *r == self.spec_from(),
    {
        &self.from
    }

    /// The id of the query, to pass back in the answer.
    pub closed spec fn spec_query_id(&self) -> u16 {
        self.query_id
    }

    /// The id of the query, to pass back in the answer.
    pub fn query_id(&self) -> (r: u16)
        ensures
            r == self.spec_query_id(),
    {
        self.query_id
    }
}


/// A valid mDNS packet received by the service.
#[derive(Debug)]
pub enum MdnsPacket {
    /// A query made by a remote.
    Query(MdnsQuery),
    /// A response sent by a remote in answer to one of our queries.
    Response(MdnsResponse),
    /// A request for service discovery.
    ServiceDiscovery(MdnsServiceDiscovery),
}

/// What classification must yield for a message with the given header
/// flag, id, questions and records, received from `from`: a query naming
/// the libp2p service, else a query naming the meta service-discovery
/// name, else no packet for other queries; any non-query is a response
/// whose peers correspond exactly to its answer and additional records.
pub open spec fn classified(
    r: Option<MdnsPacket>,
    query: bool,
    id: u16,
    questions: Seq<Vec<u8>>,
    answers: Seq<DnsRecord>,
    additional: Seq<DnsRecord>,
    from: SocketAddress,
) -> bool {
    match r {
        Some(p) => match p {
            MdnsPacket::Query(q) => query && spec_contains_name(questions, spec_service_name())
                && q.spec_query_id() == id && q.spec_from() == from,
            MdnsPacket::ServiceDiscovery(d) => query && !spec_contains_name(
                questions,
                spec_service_name(),
            ) && spec_contains_name(questions, spec_meta_query_service()) && d.spec_query_id()
                == id && d.spec_from() == from,
            MdnsPacket::Response(resp) => !query && resp.spec_from() == from
                && response_peers_exact(resp.spec_peers(), answers, additional)
                && response_peers_sound(resp.spec_peers(), answers, additional)
                && response_peers_complete(resp.spec_peers(), answers),
        },
        None => query && !spec_contains_name(questions, spec_service_name())
            && !spec_contains_name(questions, spec_meta_query_service()),
    }
}

impl MdnsPacket {
    /// Classifies a parsed DNS message, as `classified` states.
    pub fn classify(
        query: bool,
        id: u16,
        questions: &Vec<Vec<u8>>,
        answers: &Vec<DnsRecord>,
        additional: &Vec<DnsRecord>,
        from: SocketAddress,
    ) -> (r: Option<MdnsPacket>)
        ensures
            classified(r, query, id, questions@, answers@, additional@, from),
    {
        if query {
            let sname = service_name();
            if contains_name(questions, sname.as_slice()) {
                Some(MdnsPacket::Query(MdnsQuery { from, query_id: id }))
            } else {
                let meta = meta_query_service();
                if contains_name(questions, meta.as_slice()) {
                    Some(
                        MdnsPacket::ServiceDiscovery(MdnsServiceDiscovery { from, query_id: id }),
                    )
                } else {
                    None
                }
            }
        } else {
            Some(MdnsPacket::Response(MdnsResponse::new(answers, additional, from)))
        }
    }

    /// Reads a datagram: parses it as a DNS message and classifies it. A
    /// datagram that does not parse yields no packet; anything else is
    /// classified exactly as `classified` states of the parsed message.
    pub fn new_from_bytes(buf: &[u8], from: SocketAddress) -> (r: Option<MdnsPacket>)
        ensures
            match dns_model_of(buf@) {
                None => r is None,
                Some(m) => classified(r, m.query, m.id, m.questions@, m.answers@, m.additional@, from),
            },
    {
        let model = match dns_parse_model(buf) {
            Some(m) => m,
            None => {
                return None;
            },
        };
        Self::classify(model.query, model.id, &model.questions, &model.answers, &model.additional, from)
    }
}

/// The sending side of the mDNS service: the queues of datagrams waiting
/// for the two sockets, and whether this node stays silent instead of
/// querying the network.
pub struct MdnsService {
    send_buffers: Vec<Vec<u8>>,
    query_send_buffers: Vec<Vec<u8>>,
    silent: bool,
}

/// What the service does with multicast membership when an interface
/// changes state.
#[derive(Debug, PartialEq, Eq, Structural)]
pub enum MulticastAction {
    /// Join the multicast group on the interface.
    Join,
    /// Leave the multicast group on the interface.
    Leave,
    /// Do nothing.
    Ignore,
}

/// How multicast membership follows interface events: join on an IPv4
/// interface coming up, leave on it going down, and never touch loopback
/// or IPv6 interfaces.
pub fn multicast_membership_action(up: bool, is_loopback: bool, is_v4: bool) -> (r: MulticastAction)
    ensures
        r == (if is_loopback || !is_v4 {
            MulticastAction::Ignore
        } else if up {
            MulticastAction::Join
        } else {
            MulticastAction::Leave
        }),
{
    if is_loopback || !is_v4 {
        MulticastAction::Ignore
    } else if up {
        MulticastAction::Join
    } else {
        MulticastAction::Leave
    }
}

impl MdnsService {
    /// The datagrams queued for the listen socket.
    pub closed spec fn spec_send_queue(&self) -> Seq<Vec<u8>> {
        self.send_buffers@
    }

    /// The datagrams queued for the query socket.
    pub closed spec fn spec_query_queue(&self) -> Seq<Vec<u8>> {
        self.query_send_buffers@
    }

    /// Whether this node keeps quiet instead of querying.
    pub closed spec fn spec_silent(&self) -> bool {
        self.silent
    }

    /// A service that queries the network.
    pub fn new() -> (r: MdnsService)
        ensures
            !r.spec_silent(),
            r.spec_send_queue().len() == 0,
            r.spec_query_queue().len() == 0,
    {
        MdnsService { send_buffers: Vec::new(), query_send_buffers: Vec::new(), silent: false }
    }

    /// A service that answers queries but never sends its own.
    pub fn silent() -> (r: MdnsService)
        ensures
            r.spec_silent(),
            r.spec_send_queue().len() == 0,
            r.spec_query_queue().len() == 0,
    {
        MdnsService { send_buffers: Vec::new(), query_send_buffers: Vec::new(), silent: true }
    }

    /// Queues a response datagram for the listen socket.
    pub fn enqueue_response(&mut self, rsp: Vec<u8>)
        ensures
            final(self).spec_send_queue() == old(self).spec_send_queue().push(rsp),
            final(self).spec_query_queue() == old(self).spec_query_queue(),
            final(self).spec_silent() == old(self).spec_silent(),
    {
        self.send_buffers.push(rsp);
    }

    /// The query timer ticked: unless silent, the freshly built query joins
    /// the query queue.
    pub fn on_query_interval(&mut self, query: Vec<u8>)
        ensures
            final(self).spec_silent() == old(self).spec_silent(),
            final(self).spec_send_queue() == old(self).spec_send_queue(),
            old(self).spec_silent() ==> final(self).spec_query_queue() == old(
                self,
            ).spec_query_queue(),
            !old(self).spec_silent() ==> final(self).spec_query_queue() == old(
                self,
            ).spec_query_queue().push(query),
    {
        if !self.silent {
            self.query_send_buffers.push(query);
        }
    }

    /// Takes the next datagram to send on the listen socket: the queue is
    /// drained front first, before the service waits for input again.
    pub fn next_response_to_send(&mut self) -> (r: Option<Vec<u8>>)
        ensures
            final(self).spec_silent() == old(self).spec_silent(),
            final(self).spec_query_queue() == old(self).spec_query_queue(),
            match r {
                Some(v) => old(self).spec_send_queue().len() > 0 && v == old(
                    self,
                ).spec_send_queue()[0] && final(self).spec_send_queue() == old(
                    self,
                ).spec_send_queue().skip(1),
                None => old(self).spec_send_queue().len() == 0 && final(self).spec_send_queue()
                    == old(self).spec_send_queue(),
            },
    {
        if self.send_buffers.len() == 0 {
            return None;
        }
        let v = self.send_buffers.remove(0);
        proof {
            assert(final(self).send_buffers@ =~= old(self).send_buffers@.skip(1));
        }
        Some(v)
    }

    /// Takes the next datagram to send on the query socket.
    pub fn next_query_to_send(&mut self) -> (r: Option<Vec<u8>>)
        ensures
            final(self).spec_silent() == old(self).spec_silent(),
            final(self).spec_send_queue() == old(self).spec_send_queue(),
            match r {
                Some(v) => old(self).spec_query_queue().len() > 0 && v == old(
                    self,
                ).spec_query_queue()[0] && final(self).spec_query_queue() == old(
                    self,
                ).spec_query_queue().skip(1),
                None => old(self).spec_query_queue().len() == 0 && final(self).spec_query_queue()
                    == old(self).spec_query_queue(),
            },
    {
        if self.query_send_buffers.len() == 0 {
            return None;
        }
        let v = self.query_send_buffers.remove(0);
        proof {
            assert(final(self).query_send_buffers@ =~= old(self).query_send_buffers@.skip(1));
        }
        Some(v)
    }

    /// A send on the listen socket failed: the queue is cleared and sending
    /// resumes on the next cycle.
    pub fn on_send_error(&mut self)
        ensures
            final(self).spec_silent() == old(self).spec_silent(),
            final(self).spec_query_queue() == old(self).spec_query_queue(),
            final(self).spec_send_queue().len() == 0,
    {
        self.send_buffers = Vec::new();
    }

    /// A send on the query socket failed: its queue is cleared likewise.
    pub fn on_query_send_error(&mut self)
        ensures
            final(self).spec_silent() == old(self).spec_silent(),
            final(self).spec_send_queue() == old(self).spec_send_queue(),
            final(self).spec_query_queue().len() == 0,
    {
        self.query_send_buffers = Vec::new();
    }
}

} // verus!

