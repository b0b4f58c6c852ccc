//! Peer discovery: the shapes a node's status endpoint reports, and the
//! logic that turns one response into candidate peers.
//!
//! The HTTP requests themselves are I/O and stay outside the library;
//! the caller hands in a decoded `NetInfo` (or nothing, on any network
//! or decode failure) and gets back the peers that belong to the target
//! network, each with a port read off its listen address.

use vstd::prelude::*;
use vstd::string::StrSliceExecFns;
use vstd::string::StringExecFns;

use crate::pinger::{MonikerData, MonikerDataView};
use crate::reporter::{spec_u64_string, u64_to_string};

verus! {

/// A peer's self-description inside a status response.
pub struct NodeInfo {
    pub id: String,
    pub network: String,
    pub moniker: String,
    pub listen_addr: String,
}

/// Ghost model of a discovery `NodeInfo`.
pub struct NodeInfoView {
    pub id: Seq<char>,
    pub network: Seq<char>,
    pub moniker: Seq<char>,
    pub listen_addr: Seq<char>,
}

impl View for NodeInfo {
    type V = NodeInfoView;

    open spec fn view(&self) -> NodeInfoView {
        NodeInfoView {
            id: self.id@,
            network: self.network@,
            moniker: self.moniker@,
            listen_addr: self.listen_addr@,
        }
    }
}

impl DeepView for NodeInfo {
    type V = NodeInfoView;

    open spec fn deep_view(&self) -> NodeInfoView {
        self.view()
    }
}

/// One remote peer as reported by a status endpoint.
pub struct Peer {
    pub node_info: NodeInfo,
    pub remote_ip: String,
}

/// Ghost model of a `Peer`.
pub struct PeerView {
    pub node_info: NodeInfoView,
    pub remote_ip: Seq<char>,
}

impl View for Peer {
    type V = PeerView;

    open spec fn view(&self) -> PeerView {
        PeerView { node_info: self.node_info@, remote_ip: self.remote_ip@ }
    }
}

impl DeepView for Peer {
    type V = PeerView;

    open spec fn deep_view(&self) -> PeerView {
        self.view()
    }
}

/// The payload of a status response: the peers the node knows of.
pub struct ResultData {
    pub peers: Vec<Peer>,
}

/// Ghost model of a `ResultData`.
pub struct ResultDataView {
    pub peers: Seq<PeerView>,
}

impl View for ResultData {
    type V = ResultDataView;

    open spec fn view(&self) -> ResultDataView {
        ResultDataView { peers: self.peers.deep_view() }
    }
}

impl DeepView for ResultData {
    type V = ResultDataView;

    open spec fn deep_view(&self) -> ResultDataView {
        self.view()
    }
}

/// A whole decoded status response.
pub struct NetInfo {
    pub result: ResultData,
}

/// Ghost model of a `NetInfo`.
pub struct NetInfoView {
    pub result: ResultDataView,
}

impl View for NetInfo {
    type V = NetInfoView;

    open spec fn view(&self) -> NetInfoView {
        NetInfoView { result: self.result@ }
    }
}

impl DeepView for NetInfo {
    type V = NetInfoView;

    open spec fn deep_view(&self) -> NetInfoView {
        self.view()
    }
}

/// The well-known status port tried first for every address book entry.
pub const DEFAULT_STATUS_PORT: u16 = 26657;

/// The port of the second discovery attempt: the entry's own
/// peer-exchange port incremented by one, the conventional pairing of a
/// peer-exchange port with an adjacent status port.
pub fn fallback_status_port(port: u16) -> (r: u16)
    requires
        port < 0xffff,
    ensures
        r == port + 1,
{
    port + 1
}

/// Whether `c` is a decimal digit.
pub open spec fn is_ascii_digit(c: char) -> bool {
    48 <= c as u32 <= 57
}

/// The numeric value of a decimal digit character; zero off the digits.
pub open spec fn digit_val(c: char) -> nat {
    if is_ascii_digit(c) {
        (c as u32 - 48) as nat
    } else {
        0
    }
}

/// Whether every character of `s` is a decimal digit.
pub open spec fn all_digits(s: Seq<char>) -> bool {
    forall|i: int| 0 <= i < s.len() ==> is_ascii_digit(#[trigger] s[i])
}

/// The number a sequence of decimal digits denotes, most significant
/// digit first.
pub open spec fn digits_val(s: Seq<char>) -> nat
    decreases s.len(),
{
    if s.len() == 0 {
        0
    } else {
        digits_val(s.drop_last()) * 10 + digit_val(s.last())
    }
}

/// The index of the last `:` in `s`, if any.
pub open spec fn last_colon_index(s: Seq<char>) -> Option<int>
    decreases s.len(),
{
    if s.len() == 0 {
        None
    } else if s.last() == ':' {
        Some(s.len() - 1)
    } else {
        last_colon_index(s.drop_last())
    }
}

/// The port a listen-address string carries: the text after its last
/// `:`, provided that text is nonempty, all digits, and fits in a
/// `u64`. Anything else — no colon, an empty or non-numeric suffix, a
/// value too large — yields nothing, never an error.
pub open spec fn spec_port_of_listen_addr(s: Seq<char>) -> Option<u64> {
    match last_colon_index(s) {
        None => None,
        Some(j) => {
            let suffix = s.subrange(j + 1, s.len() as int);
            if suffix.len() > 0 && all_digits(suffix) && digits_val(suffix) <= u64::MAX {
                Some(digits_val(suffix) as u64)
            } else {
                None
            }
        },
    }
}

/// `last_colon_index` finds the last colon: the index it returns holds
/// a colon with none after it, and it returns nothing only when no
/// colon occurs at all.
proof fn lemma_last_colon_index(s: Seq<char>)
    ensures
        match last_colon_index(s) {
            Some(j) => 0 <= j < s.len() && s[j] == ':' && forall|k: int|
                j < k < s.len() ==> s[k] != ':',
            None => forall|k: int| 0 <= k < s.len() ==> s[k] != ':',
        },
    decreases s.len(),
{
    if s.len() > 0 && s.last() != ':' {
        lemma_last_colon_index(s.drop_last());
        assert forall|k: int| 0 <= k < s.len() - 1 implies s.drop_last()[k] == s[k] by {}
    }
}

/// A prefix of a digit string never denotes more than the whole string.
proof fn lemma_digits_val_prefix(s: Seq<char>, k: int)
    requires
        0 <= k <= s.len(),
    ensures
        digits_val(s.subrange(0, k)) <= digits_val(s),
    decreases s.len() - k,
{
    if k == s.len() {
        assert(s.subrange(0, k) =~= s);
    } else {
        let a = s.subrange(0, k);
        let b = s.subrange(0, k + 1);
        assert(b.drop_last() =~= a);
        assert(digits_val(b) == digits_val(a) * 10 + digit_val(b.last()));
        lemma_digits_val_prefix(s, k + 1);
    }
}

/// Reads the port off a listen-address string: the decimal number after
/// the last `:`, or nothing when there is no such well-formed suffix.
pub fn get_port_from_listen_addr(listen_addr: String) -> (r: Option<u64>)
    ensures
        r == spec_port_of_listen_addr(listen_addr@),
{
    let s = listen_addr.as_str();
    let ghost sv = s@;
    let n = s.unicode_len();
    proof {
        lemma_last_colon_index(sv);
    }

    let mut idx: usize = 0;
    let mut colon: Option<usize> = None;
    while idx < n
        invariant
            n == sv.len(),
            sv == s@,
            sv == listen_addr@,
            idx <= n,
            match colon {
                Some(j) => j < idx && sv[j as int] == ':' && forall|k: int|
                    j < k < idx ==> sv[k] != ':',
                None => forall|k: int| 0 <= k < idx ==> sv[k] != ':',
            },
        decreases n - idx,
    {
        if s.get_char(idx) == ':' {
            colon = Some(idx);
        }
        idx += 1;
    }

    let j = match colon {
        None => {
            return None;
        },
        Some(j) => j,
    };
    assert(last_colon_index(sv) == Some(j as int));

    if j + 1 == n {
        return None;
    }
    let ghost suffix = sv.subrange(j + 1, n as int);

    let mut val: u64 = 0;
    let mut k: usize = j + 1;
    while k < n
        invariant
            n == sv.len(),
            sv == s@,
            sv == listen_addr@,
            j + 1 <= k <= n,
            suffix == sv.subrange(j + 1, n as int),
            all_digits(suffix.subrange(0, k - j - 1)),
            val == digits_val(suffix.subrange(0, k - j - 1)),
            last_colon_index(sv) == Some(j as int),
        decreases n - k,
    {
        let c = s.get_char(k);
        let d = c as u32;
        let ghost pre = suffix.subrange(0, k - j - 1);
        let ghost pre1 = suffix.subrange(0, k - j);
        assert(pre1.drop_last() =~= pre);
        assert(pre1.last() == sv[k as int]);
        if d < 48 || d > 57 {
            proof {
                assert(suffix[k - j - 1] == sv[k as int]);
                assert(!is_ascii_digit(suffix[k - j - 1]));
                assert(!all_digits(suffix));
            }
            return None;
        }
        let d64 = (d - 48) as u64;
        if val > (u64::MAX - d64) / 10 {
            proof {
                assert(pre1.last() == sv[k as int]);
                assert(is_ascii_digit(sv[k as int]));
                assert(digit_val(sv[k as int]) == d64);
                assert(digits_val(pre1) == val * 10 + d64);
                let q = (u64::MAX - d64) / 10;
                assert(u64::MAX - d64 == q * 10 + (u64::MAX - d64) % 10);
                assert(val * 10 >= q * 10 + 10);
                assert(val * 10 + d64 > u64::MAX);
                lemma_digits_val_prefix(suffix, k - j);
                assert(digits_val(suffix) > u64::MAX);
            }
            return None;
        }
        val = val * 10 + d64;
        k += 1;
    }
    proof {
        assert(suffix.subrange(0, n - j - 1) =~= suffix);
    }
    Some(val)
}

/// Whether two pieces of text hold the same characters.
fn str_eq(a: &str, b: &str) -> (r: bool)
    ensures
        r == (a@ == b@),
{
    let la = a.unicode_len();
    let lb = b.unicode_len();
    if la != lb {
        proof {
            if a@ == b@ {
                assert(a@.len() == b@.len());
            }
        }
        return false;
    }
    let mut i: usize = 0;
    while i < la
        invariant
            la == a@.len(),
            la == b@.len(),
            i <= la,
            forall|k: int| 0 <= k < i ==> a@[k] == b@[k],
        decreases la - i,
    {
        if a.get_char(i) != b.get_char(i) {
            proof {
                if a@ == b@ {
                    assert(a@[i as int] == b@[i as int]);
                }
            }
            return false;
        }
        i += 1;
    }
    proof {
        assert(a@ =~= b@);
    }
    true
}

/// The candidate a kept peer turns into: its identity, its moniker,
/// the address it was seen at, and the port read off its listen
/// address.
pub open spec fn spec_moniker_of_peer(p: PeerView) -> MonikerDataView {
    MonikerDataView {
        id: p.node_info.id,
        moniker: p.node_info.moniker,
        remote_ip: p.remote_ip,
        port: spec_port_of_listen_addr(p.node_info.listen_addr),
    }
}

/// The peers of a status response that belong to the target network,
/// in response order, each as a candidate.
pub open spec fn spec_convert_peers(peers: Seq<PeerView>, chain_id: Seq<char>) -> Seq<
    MonikerDataView,
>
    decreases peers.len(),
{
    if peers.len() == 0 {
        Seq::empty()
    } else {
        let init = spec_convert_peers(peers.drop_last(), chain_id);
        if peers.last().node_info.network == chain_id {
            init.push(spec_moniker_of_peer(peers.last()))
        } else {
            init
        }
    }
}

/// Keeps the peers of one status response that report the target
/// network identifier, each with the port read off its listen-address
/// string; everything else in the response is dropped.
pub fn convert_to_netinfo(ni: NetInfo, chain_id: &str) -> (r: Vec<MonikerData>)
    ensures
        r.deep_view() == spec_convert_peers(ni.result.peers.deep_view(), chain_id@),
{
    let ghost pv = ni.result.peers.deep_view();
    let mut data: Vec<MonikerData> = Vec::new();
    let mut i: usize = 0;
    while i < ni.result.peers.len()
        invariant
            pv == ni.result.peers.deep_view(),
            pv.len() == ni.result.peers@.len(),
            i <= pv.len(),
            data.deep_view() == spec_convert_peers(pv.subrange(0, i as int), chain_id@),
        decreases pv.len() - i,
    {
        let p = &ni.result.peers[i];
        proof {
            assert(pv.subrange(0, i + 1).drop_last() =~= pv.subrange(0, i as int));
            assert(pv.subrange(0, i + 1).last() == pv[i as int]);
            assert(pv[i as int] == p.deep_view());
        }
        if str_eq(p.node_info.network.as_str(), chain_id) {
            let port = get_port_from_listen_addr(p.node_info.listen_addr.clone());
            let datum = MonikerData {
                id: p.node_info.id.clone(),
                moniker: p.node_info.moniker.clone(),
                remote_ip: p.remote_ip.clone(),
                port,
            };
            proof {
                assert(datum@ == spec_moniker_of_peer(pv[i as int]));
            }
            data.push(datum);
        }
        i += 1;
    }
    proof {
        assert(pv.subrange(0, ni.result.peers@.len() as int) =~= pv);
    }
    data
}

/// The status endpoint address for one discovery attempt.
pub open spec fn spec_net_info_url(host: Seq<char>, port: u16) -> Seq<char> {
    "http://"@ + host + ":"@ + spec_u64_string(port as nat) + "/net_info"@
}

/// Builds the status endpoint address for one discovery attempt.
pub fn net_info_url(host: &String, port: u16) -> (r: String)
    ensures
        r@ == spec_net_info_url(host@, port),
{
    let mut s = String::from_str("http://");
    s.append(host.as_str());
    s.append(":");
    let p = u64_to_string(port as u64);
    s.append(p.as_str());
    s.append("/net_info");
    proof {
        assert(s@ =~= spec_net_info_url(host@, port));
    }
    s
}

} // verus!
