use vstd::prelude::*;

use crate::memorefhead::{HeadView, MemoRefHead};
use crate::slab::{SlabId, SlabPresence};
use vstd::string::StringExecFns;

verus! {

/// A UDP transport address such as `127.0.0.1:12001`.
#[derive(Debug)]
pub struct TransportAddressUDP {
    pub address: String,
}

/// Where a slab can be reached.
#[derive(Debug)]
pub enum TransportAddress {
    Blackhole,
    Local,
    UDP(TransportAddressUDP),
}

/// The mathematical value of a `TransportAddress`.
pub enum AddressView {
    Blackhole,
    Local,
    UDP(Seq<char>),
}

impl View for TransportAddress {
    type V = AddressView;

    open spec fn view(&self) -> AddressView {
        match self {
            TransportAddress::Blackhole => AddressView::Blackhole,
            TransportAddress::Local => AddressView::Local,
            TransportAddress::UDP(a) => AddressView::UDP(a.address@),
        }
    }
}

/// Whether a transport address is expected to be reachable.
#[derive(PartialEq, Eq, Structural, Clone, Copy, Debug)]
pub enum TransportLiveness {
    Unknown,
    Unavailable,
    Available,
}

impl TransportAddress {
    /// A copy of this address.
    pub fn clone_address(&self) -> (r: TransportAddress)
        ensures
            r@ == self@,
    {
        match self {
            TransportAddress::Blackhole => TransportAddress::Blackhole,
            TransportAddress::Local => TransportAddress::Local,
            TransportAddress::UDP(a) => TransportAddress::UDP(
                TransportAddressUDP { address: a.address.clone() },
            ),
        }
    }
}

impl TransportAddressUDP {
    /// The text of the address, as in `udp:127.0.0.1:12001`.
    pub fn to_string(&self) -> (r: String)
        ensures
            r@ == seq!['u', 'd', 'p', ':'] + self.address@,
    {
        proof {
            reveal_strlit("udp:");
        }
        let mut r = String::from_str("udp:");
        r.append(self.address.as_str());
        r
    }
}

/// What a transmitter is made from: a slab of this process, or the id and
/// address of a remote slab.
#[derive(Debug)]
pub enum TransmitterArgs {
    Local(SlabId),
    Remote(SlabId, TransportAddress),
}

impl TransmitterArgs {
    /// The id of the slab that the transmitter sends to.
    pub open spec fn target_slab(&self) -> SlabId {
        match self {
            TransmitterArgs::Local(s) => *s,
            TransmitterArgs::Remote(s, _) => *s,
        }
    }

    /// The id of the slab that the transmitter sends to.
    pub fn get_slab_id(&self) -> (r: SlabId)
        ensures
            r == self.target_slab(),
    {
        match self {
            TransmitterArgs::Local(s) => *s,
            TransmitterArgs::Remote(s, _) => *s,
        }
    }
}

/// How a transmitter delivers: over a channel to a slab of this process,
/// through a transport's own sender, or nowhere.
#[derive(PartialEq, Eq, Structural, Clone, Copy, Debug)]
pub enum TransmitterKind {
    Local,
    Dynamic,
    Blackhole,
}

impl TransmitterKind {
    /// The name of the kind.
    pub fn kind(&self) -> (r: &'static str)
        ensures
            *self == TransmitterKind::Local ==> r@ == "Local"@,
            *self == TransmitterKind::Dynamic ==> r@ == "Dynamic"@,
            *self == TransmitterKind::Blackhole ==> r@ == "Blackhole"@,
    {
        match self {
            TransmitterKind::Local => "Local",
            TransmitterKind::Dynamic => "Dynamic",
            TransmitterKind::Blackhole => "Blackhole",
        }
    }
}

/// Where and how memos for one slab are sent.
#[derive(Debug)]
pub struct Transmitter {
    pub to_slab_id: SlabId,
    pub kind: TransmitterKind,
}

impl Transmitter {
    /// A transmitter to a slab of this process.
    pub fn new_local(to_slab_id: SlabId) -> (r: Transmitter)
        ensures
            r.to_slab_id == to_slab_id,
            r.kind == TransmitterKind::Local,
    {
        Transmitter { to_slab_id, kind: TransmitterKind::Local }
    }

    /// A transmitter that drops what it is given.
    pub fn new_blackhole(to_slab_id: SlabId) -> (r: Transmitter)
        ensures
            r.to_slab_id == to_slab_id,
            r.kind == TransmitterKind::Blackhole,
    {
        Transmitter { to_slab_id, kind: TransmitterKind::Blackhole }
    }

    /// A transmitter through a transport's own sender.
    pub fn new_dynamic(to_slab_id: SlabId) -> (r: Transmitter)
        ensures
            r.to_slab_id == to_slab_id,
            r.kind == TransmitterKind::Dynamic,
    {
        Transmitter { to_slab_id, kind: TransmitterKind::Dynamic }
    }
}

/// A way of carrying memos between slabs.
pub trait Transport {
    /// Whether the transport only reaches slabs of this process.
    fn is_local(&self) -> bool;

    /// A transmitter for the given target, when the transport can reach it.
    fn make_transmitter(&self, args: &TransmitterArgs) -> Option<Transmitter>;

    /// The address at which a slab reached through `address` can answer.
    fn get_return_address(&self, address: &TransportAddress) -> TransportAddress;
}

/// A transport that reaches nothing: everything sent through it is dropped.
#[derive(Clone, Debug)]
pub struct Blackhole;

impl Blackhole {
    /// The blackhole transport.
    pub fn new() -> (r: Blackhole) {
        Blackhole
    }
}

impl Transport for Blackhole {
    fn is_local(&self) -> (r: bool)
        ensures
            r,
    {
        true
    }

    fn make_transmitter(&self, args: &TransmitterArgs) -> (r: Option<Transmitter>)
        ensures
            r matches Some(t) && t.kind == TransmitterKind::Blackhole && t.to_slab_id == args.target_slab(),
    {
        Some(Transmitter::new_blackhole(args.get_slab_id()))
    }

    fn get_return_address(&self, _address: &TransportAddress) -> (r: TransportAddress)
        ensures
            r@ == AddressView::Blackhole,
    {
        TransportAddress::Blackhole
    }
}

/// A transport between slabs of this process, over channels.
#[derive(Clone, Debug)]
pub struct LocalDirect {}

impl LocalDirect {
    /// The local transport.
    pub fn new() -> (r: LocalDirect) {
        LocalDirect {}
    }
}

impl Transport for LocalDirect {
    fn is_local(&self) -> (r: bool)
        ensures
            r,
    {
        true
    }

    fn make_transmitter(&self, args: &TransmitterArgs) -> (r: Option<Transmitter>)
        ensures
            args matches TransmitterArgs::Local(s) ==> (r matches Some(t) && t.kind == TransmitterKind::Local && t.to_slab_id
                == s),
            args is Remote ==> r is None,
    {
        match args {
            TransmitterArgs::Local(s) => Some(Transmitter::new_local(*s)),
            TransmitterArgs::Remote(_, _) => None,
        }
    }

    fn get_return_address(&self, address: &TransportAddress) -> (r: TransportAddress)
        ensures
            address@ is Local ==> r@ == AddressView::Local,
            !(address@ is Local) ==> r@ == AddressView::Blackhole,
    {
        match address {
            TransportAddress::Local => TransportAddress::Local,
            _ => TransportAddress::Blackhole,
        }
    }
}

/// Why a packet could not be handed to a slab of this process.
#[derive(PartialEq, Eq, Structural, Clone, Copy, Debug)]
pub enum RouteError {
    /// The packet names no slab, and this process has none to take it.
    NoRepresentativeSlab,
    /// The slab that the packet names is not one of this process.
    DestinationNotFound,
}

/// The slabs of this process and the numbering of new ones.
pub struct Network {
    next_slab_id: u32,
    local_slabs: Vec<SlabId>,
    create_new_system: bool,
    root_index_seed: Option<(MemoRefHead, SlabId)>,
}

impl Network {
    /// The next slab id that the network hands out.
    pub closed spec fn next_id(&self) -> u32 {
        self.next_slab_id
    }

    /// The slabs of this process, in order of registration.
    pub closed spec fn slabs(&self) -> Seq<SlabId> {
        self.local_slabs@
    }

    /// Whether this network starts a new system (and may seed its root index).
    pub closed spec fn creates_new_system(&self) -> bool {
        self.create_new_system
    }

    /// The root index seed that the network holds, with the slab it resides on.
    pub closed spec fn seed(&self) -> Option<(HeadView, SlabId)> {
        match self.root_index_seed {
            Some((h, id)) => Some((h@, id)),
            None => None,
        }
    }

    /// A network that starts a new system.
    pub fn create_new_system() -> (r: Network)
        ensures
            r.next_id() == 0,
            r.slabs() == Seq::<SlabId>::empty(),
            r.creates_new_system(),
            r.seed() is None,
    {
        Network { next_slab_id: 0, local_slabs: Vec::new(), create_new_system: true, root_index_seed: None }
    }

    /// Takes `seed`, residing on slab `resident_slab`, as the network's root
    /// index seed when it holds none yet; a network that holds one keeps it.
    /// Returns whether the seed was taken.
    pub fn apply_root_index_seed(&mut self, seed: &MemoRefHead, resident_slab: SlabId) -> (r: bool)
        ensures
            r == old(self).seed() is None,
            r ==> final(self).seed() == Some((seed@, resident_slab)),
            !r ==> final(self).seed() == old(self).seed(),
            final(self).slabs() == old(self).slabs(),
            final(self).next_id() == old(self).next_id(),
            final(self).creates_new_system() == old(self).creates_new_system(),
    {
        match &self.root_index_seed {
            Some(_) => false,
            None => {
                self.root_index_seed = Some((seed.clone_head(), resident_slab));
                true
            },
        }
    }

    /// A network that joins an existing system.
    pub fn new() -> (r: Network)
        ensures
            r.next_id() == 0,
            r.slabs() == Seq::<SlabId>::empty(),
            !r.creates_new_system(),
            r.seed() is None,
    {
        Network { next_slab_id: 0, local_slabs: Vec::new(), create_new_system: false, root_index_seed: None }
    }

    /// The slab id that the network hands out next.
    pub fn peek_slab_id(&self) -> (r: u32)
        ensures
            r == self.next_id(),
    {
        self.next_slab_id
    }

    /// A slab id not handed out before: the next in sequence.
    pub fn generate_slab_id(&mut self) -> (r: u32)
        requires
            old(self).next_id() < u32::MAX,
        ensures
            r == old(self).next_id(),
            final(self).next_id() == old(self).next_id() + 1,
            final(self).slabs() == old(self).slabs(),
            final(self).creates_new_system() == old(self).creates_new_system(),
            final(self).seed() == old(self).seed(),
    {
        let id = self.next_slab_id;
        self.next_slab_id = self.next_slab_id + 1;
        id
    }

    /// Records a slab of this process.
    pub fn register_local_slab(&mut self, slab_id: SlabId)
        ensures
            final(self).slabs() == old(self).slabs().push(slab_id),
            final(self).next_id() == old(self).next_id(),
            final(self).creates_new_system() == old(self).creates_new_system(),
            final(self).seed() == old(self).seed(),
    {
        self.local_slabs.push(slab_id);
    }

    /// The slab of this process that a packet addressed to `to_slab_id` goes
    /// to: the slab it names, when it is one of this process; for slab id 0,
    /// which names no slab, the first slab of this process.
    pub fn packet_destination(&self, to_slab_id: SlabId) -> (r: Result<SlabId, RouteError>)
        ensures
            to_slab_id.0 == 0 && self.slabs().len() > 0 ==> r == Ok::<SlabId, RouteError>(self.slabs()[0]),
            to_slab_id.0 == 0 && self.slabs().len() == 0 ==> r == Err::<SlabId, RouteError>(RouteError::NoRepresentativeSlab),
            to_slab_id.0 != 0 && self.slabs().contains(to_slab_id) ==> r == Ok::<SlabId, RouteError>(to_slab_id),
            to_slab_id.0 != 0 && !self.slabs().contains(to_slab_id) ==> r == Err::<SlabId, RouteError>(
                RouteError::DestinationNotFound,
            ),
    {
        if to_slab_id.0 == 0 {
            if self.local_slabs.len() > 0 {
                return Ok(self.local_slabs[0]);
            }
            return Err(RouteError::NoRepresentativeSlab);
        }
        let mut i: usize = 0;
        while i < self.local_slabs.len()
            invariant
                to_slab_id.0 != 0,
                i <= self.local_slabs@.len(),
                forall|k: int| 0 <= k < i ==> self.local_slabs@[k] != to_slab_id,
            decreases self.local_slabs@.len() - i,
        {
            if self.local_slabs[i].0 == to_slab_id.0 {
                proof {
                    assert(self.local_slabs@[i as int] == to_slab_id);
                    assert(self.slabs().contains(to_slab_id));
                }
                return Ok(to_slab_id);
            }
            i = i + 1;
        }
        Err(RouteError::DestinationNotFound)
    }

    /// What a packet from slab `from_slab_id`, addressed to `to_slab_id`, that
    /// arrived from `source_address` is handed to: the slab of this process
    /// that takes it (see `packet_destination`), and the presence of the
    /// sender at the source address, of unknown liveness.
    pub fn route_packet(&self, from_slab_id: SlabId, to_slab_id: SlabId, source_address: &TransportAddress) -> (r: Result<
        (SlabId, SlabPresence),
        RouteError,
    >)
        ensures
            r is Err <==> self.packet_destination_spec(to_slab_id) is Err,
            r matches Err(e) ==> self.packet_destination_spec(to_slab_id) == Err::<SlabId, RouteError>(e),
            r matches Ok((dest, p)) ==> {
                &&& self.packet_destination_spec(to_slab_id) == Ok::<SlabId, RouteError>(dest)
                &&& p.slab_id == from_slab_id
                &&& p.address@ == source_address@
                &&& p.liveness == TransportLiveness::Unknown
            },
    {
        match self.packet_destination(to_slab_id) {
            Ok(dest) => Ok((dest, SlabPresence { slab_id: from_slab_id, address: source_address.clone_address(), liveness: TransportLiveness::Unknown })),
            Err(e) => Err(e),
        }
    }

    /// The slab that a packet addressed to `to_slab_id` goes to, as
    /// `packet_destination` computes it.
    pub open spec fn packet_destination_spec(&self, to_slab_id: SlabId) -> Result<SlabId, RouteError> {
        if to_slab_id.0 == 0 {
            if self.slabs().len() > 0 {
                Ok(self.slabs()[0])
            } else {
                Err(RouteError::NoRepresentativeSlab)
            }
        } else if self.slabs().contains(to_slab_id) {
            Ok(to_slab_id)
        } else {
            Err(RouteError::DestinationNotFound)
        }
    }

    /// The number of slabs of this process.
    pub fn get_local_slab_count(&self) -> (r: usize)
        ensures
            r == self.slabs().len(),
    {
        self.local_slabs.len()
    }
}

} // verus!
