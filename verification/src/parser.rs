//! The static address book: the caller-supplied list of known peer nodes.
//!
//! Loading the address book from disk is I/O and stays outside the
//! library; these types are the plain-value shape that the loader hands
//! in, and `AddrBookParser` is the handle the loader is built around.

use vstd::prelude::*;

verus! {

/// One node's identity and endpoint as recorded in the address book.
pub struct NodeInfo {
    pub id: String,
    pub ip: String,
    pub port: u16,
}

/// Ghost model of a `NodeInfo`.
pub struct NodeInfoView {
    pub id: Seq<char>,
    pub ip: Seq<char>,
    pub port: u16,
}

impl View for NodeInfo {
    type V = NodeInfoView;

    open spec fn view(&self) -> NodeInfoView {
        NodeInfoView { id: self.id@, ip: self.ip@, port: self.port }
    }
}

impl DeepView for NodeInfo {
    type V = NodeInfoView;

    open spec fn deep_view(&self) -> NodeInfoView {
        self.view()
    }
}

/// One address book record: the peer's own address, the address of the
/// peer that reported it, and bookkeeping the pipeline never reads.
pub struct AddressInfo {
    pub addr: NodeInfo,
    pub src: NodeInfo,
    pub buckets: Vec<u32>,
    pub attempts: u32,
    pub bucket_type: u32,
    pub last_attempt: String,
    pub last_success: String,
    pub last_ban_time: String,
}

/// Ghost model of an `AddressInfo`.
pub struct AddressInfoView {
    pub addr: NodeInfoView,
    pub src: NodeInfoView,
    pub buckets: Seq<u32>,
    pub attempts: u32,
    pub bucket_type: u32,
    pub last_attempt: Seq<char>,
    pub last_success: Seq<char>,
    pub last_ban_time: Seq<char>,
}

impl View for AddressInfo {
    type V = AddressInfoView;

    open spec fn view(&self) -> AddressInfoView {
        AddressInfoView {
            addr: self.addr@,
            src: self.src@,
            buckets: self.buckets@,
            attempts: self.attempts,
            bucket_type: self.bucket_type,
            last_attempt: self.last_attempt@,
            last_success: self.last_success@,
            last_ban_time: self.last_ban_time@,
        }
    }
}

impl DeepView for AddressInfo {
    type V = AddressInfoView;

    open spec fn deep_view(&self) -> AddressInfoView {
        self.view()
    }
}

/// The whole address book: an ordered sequence of records, immutable
/// for the duration of one run.
pub struct AddrBook {
    pub key: String,
    pub addrs: Vec<AddressInfo>,
}

/// Ghost model of an `AddrBook`.
pub struct AddrBookView {
    pub key: Seq<char>,
    pub addrs: Seq<AddressInfoView>,
}

impl View for AddrBook {
    type V = AddrBookView;

    open spec fn view(&self) -> AddrBookView {
        AddrBookView { key: self.key@, addrs: self.addrs.deep_view() }
    }
}

impl DeepView for AddrBook {
    type V = AddrBookView;

    open spec fn deep_view(&self) -> AddrBookView {
        self.view()
    }
}

/// Handle for the address-book loading step; the file read itself is
/// performed outside the library.
pub struct AddrBookParser {}

impl AddrBookParser {
    pub fn new() -> (r: Self) {
        Self {  }
    }
}

impl Default for AddrBookParser {
    fn default() -> (r: Self) {
        Self::new()
    }
}

} // verus!
