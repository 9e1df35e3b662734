//! Layered feed-forward brains and the packed binary form of their
//! connections.
//!
//! A connection joins a neuron of one layer to a neuron of a strictly later
//! layer and carries a fixed-point weight in thousandths. A representable
//! connection packs into a fixed 4-byte record: one byte per endpoint
//! (layer in the high nibble, neuron in the low nibble) and the weight as a
//! little-endian two-byte two's-complement value.

use vstd::prelude::*;

use crate::codec::{hex_encode, decode_hex_text, hex_of_bytes, valid_hex, decoded_bytes, CodecError};

verus! {

/// Largest absolute connection weight, in thousandths.
pub const WEIGHT_RANGE_MILLI: i16 = 4000;

/// A directed connection between two neurons, identified by
/// `(layer index, neuron index)` endpoints; the weight is a fixed-point
/// value in thousandths.
#[derive(Copy, Clone, PartialEq, Eq, Debug)]
pub struct Connection {
    pub from: (usize, usize),
    pub to: (usize, usize),
    pub weight_milli: i16,
}

/// The packed 4-byte gene record of a connection.
#[derive(Copy, Clone, PartialEq, Eq, Structural, Debug)]
pub struct ConnectionPacked {
    pub from: u8,
    pub to: u8,
    pub weight: i16,
}

/// A connection whose endpoint indices fit the packed 4-bit fields.
pub open spec fn representable(c: Connection) -> bool {
    c.from.0 < 16 && c.from.1 < 16 && c.to.0 < 16 && c.to.1 < 16
}

/// The packed record of a representable connection.
pub open spec fn spec_pack(c: Connection) -> ConnectionPacked {
    ConnectionPacked {
        from: (c.from.0 * 16 + c.from.1) as u8,
        to: (c.to.0 * 16 + c.to.1) as u8,
        weight: c.weight_milli,
    }
}

/// The connection a packed record stands for.
pub open spec fn spec_unpack(p: ConnectionPacked) -> Connection {
    Connection {
        from: ((p.from as int / 16) as usize, (p.from as int % 16) as usize),
        to: ((p.to as int / 16) as usize, (p.to as int % 16) as usize),
        weight_milli: p.weight,
    }
}

/// The two's-complement 16-bit value of a weight.
pub open spec fn i16_bits(w: int) -> int {
    if w >= 0 {
        w
    } else {
        w + 0x10000
    }
}

/// The weight a two's-complement 16-bit value stands for.
pub open spec fn bits_to_i16(v: int) -> int {
    if v < 0x8000 {
        v
    } else {
        v - 0x10000
    }
}

/// The four bytes of a packed record: endpoints, then the weight
/// little-endian.
pub open spec fn packed_bytes(p: ConnectionPacked) -> Seq<u8> {
    seq![
        p.from,
        p.to,
        (i16_bits(p.weight as int) % 256) as u8,
        (i16_bits(p.weight as int) / 256) as u8,
    ]
}

/// The hex text of a connection's packed record.
pub open spec fn gene_chars(c: Connection) -> Seq<char> {
    hex_of_bytes(packed_bytes(spec_pack(c)))
}

/// Round-trip law: packing a representable connection and unpacking the
/// record gives the connection back exactly — endpoint indices and
/// fixed-point weight.
pub proof fn lemma_pack_unpack_roundtrip(c: Connection)
    requires
        representable(c),
    ensures
        spec_unpack(spec_pack(c)) == c,
{
    let p = spec_pack(c);
    assert(p.from == c.from.0 * 16 + c.from.1);
    assert(p.to == c.to.0 * 16 + c.to.1);
    assert((c.from.0 * 16 + c.from.1) / 16 == c.from.0 && (c.from.0 * 16 + c.from.1) % 16
        == c.from.1) by (nonlinear_arith)
        requires
            c.from.0 < 16,
            c.from.1 < 16,
    ;
    assert((c.to.0 * 16 + c.to.1) / 16 == c.to.0 && (c.to.0 * 16 + c.to.1) % 16 == c.to.1)
        by (nonlinear_arith)
        requires
            c.to.0 < 16,
            c.to.1 < 16,
    ;
}

/// Round-trip law at the record level: the two's-complement bytes of a
/// weight give the weight back.
pub proof fn lemma_weight_bits_roundtrip(w: i16)
    ensures
        bits_to_i16(i16_bits(w as int) % 256 + 256 * (i16_bits(w as int) / 256)) == w as int,
{
    let v = i16_bits(w as int);
    assert(0 <= v < 0x10000);
    assert(v % 256 + 256 * (v / 256) == v) by (nonlinear_arith)
        requires
            0 <= v < 0x10000,
    ;
}

impl Connection {
    /// Packs this connection, or reports the endpoint that does not fit
    /// the 4-bit fields.
    pub fn to_packed(&self) -> (r: Result<ConnectionPacked, CodecError>)
        ensures
            r is Ok <==> representable(*self),
            r matches Ok(p) ==> p == spec_pack(*self),
            r matches Err(e) ==> e == CodecError::IndexOutOfRange,
    {
        if self.from.0 < 16 && self.from.1 < 16 && self.to.0 < 16 && self.to.1 < 16 {
            Ok(
                ConnectionPacked {
                    from: (self.from.0 * 16 + self.from.1) as u8,
                    to: (self.to.0 * 16 + self.to.1) as u8,
                    weight: self.weight_milli,
                },
            )
        } else {
            Err(CodecError::IndexOutOfRange)
        }
    }
}

impl From<ConnectionPacked> for Connection {
    fn from(p: ConnectionPacked) -> (c: Connection) {
        Connection {
            from: ((p.from / 16) as usize, (p.from % 16) as usize),
            to: ((p.to / 16) as usize, (p.to % 16) as usize),
            weight_milli: p.weight,
        }
    }
}

impl vstd::std_specs::convert::FromSpecImpl<ConnectionPacked> for Connection {
    open spec fn obeys_from_spec() -> bool {
        true
    }

    open spec fn from_spec(p: ConnectionPacked) -> Connection {
        spec_unpack(p)
    }
}

impl ConnectionPacked {
    /// The `(layer, neuron)` source endpoint.
    pub fn get_from(&self) -> (r: (usize, usize))
        ensures
            r.0 == self.from as int / 16,
            r.1 == self.from as int % 16,
    {
        ((self.from / 16) as usize, (self.from % 16) as usize)
    }

    /// The `(layer, neuron)` destination endpoint.
    pub fn get_to(&self) -> (r: (usize, usize))
        ensures
            r.0 == self.to as int / 16,
            r.1 == self.to as int % 16,
    {
        ((self.to / 16) as usize, (self.to % 16) as usize)
    }

    /// The 8-character lowercase hex text of this record.
    pub fn to_hex(&self) -> (r: String)
        ensures
            r@ == hex_of_bytes(packed_bytes(*self)),
    {
        let mut bytes: Vec<u8> = Vec::new();
        let bits: u32 = if self.weight >= 0 {
            self.weight as u32
        } else {
            (self.weight as i32 + 0x10000) as u32
        };
        bytes.push(self.from);
        bytes.push(self.to);
        bytes.push((bits % 256) as u8);
        bytes.push((bits / 256) as u8);
        proof {
            assert(bits == i16_bits(self.weight as int));
            assert(bytes@ =~= packed_bytes(*self));
        }
        hex_encode(&bytes)
    }

    /// Reads a record back from hex text: exactly 8 hex digits, in the
    /// layout that `to_hex` writes.
    pub fn from_hex(hex_string: &str) -> (r: Result<ConnectionPacked, CodecError>)
        ensures
            r is Ok <==> valid_hex(hex_string@) && hex_string@.len() == 8,
            r matches Ok(p) ==> {
                let b = decoded_bytes(hex_string@);
                p.from == b[0] && p.to == b[1] && p.weight as int == bits_to_i16(
                    b[2] as int + 256 * (b[3] as int),
                )
            },
            r matches Err(e) ==> e == (if valid_hex(hex_string@) {
                CodecError::WrongLength
            } else if hex_string@.len() % 2 != 0 {
                CodecError::OddLength
            } else {
                (CodecError::InvalidHexCharacter {
                    c: hex_string@[crate::codec::first_non_hex(hex_string@, 0)],
                    index: crate::codec::first_non_hex(hex_string@, 0) as usize,
                })
            }),
    {
        let bytes = match decode_hex_text(hex_string) {
            Ok(b) => b,
            Err(e) => {
                return Err(e);
            },
        };
        if bytes.len() != 4 {
            return Err(CodecError::WrongLength);
        }
        let v: u32 = bytes[2] as u32 + 256 * (bytes[3] as u32);
        let weight: i16 = if v < 0x8000 {
            v as i16
        } else {
            (v as i32 - 0x10000) as i16
        };
        Ok(ConnectionPacked { from: bytes[0], to: bytes[1], weight })
    }
}

/// A neuron: the list of connections leaving it.
#[derive(Clone, Debug)]
pub struct Neuron {
    pub connections: Vec<Connection>,
}

/// One layer of a brain.
#[derive(Clone, Debug)]
pub struct Layer {
    pub neurons: Vec<Neuron>,
}

/// A layered feed-forward brain. Connections are stored at their source
/// neuron and always point to a strictly later layer.
#[derive(Clone, Debug)]
pub struct NeuralNet {
    pub layers: Vec<Layer>,
}

/// All connections leaving a list of neurons, in neuron order.
pub open spec fn conns_of_neurons(ns: Seq<Neuron>) -> Seq<Connection>
    decreases ns.len(),
{
    if ns.len() == 0 {
        Seq::empty()
    } else {
        conns_of_neurons(ns.drop_last()) + ns.last().connections@
    }
}

/// All connections of a brain, in layer, then neuron, then insertion order.
pub open spec fn conns_of_layers(ls: Seq<Layer>) -> Seq<Connection>
    decreases ls.len(),
{
    if ls.len() == 0 {
        Seq::empty()
    } else {
        conns_of_layers(ls.drop_last()) + conns_of_neurons(ls.last().neurons@)
    }
}

/// The packed records of the connections in `cs` that end in layer
/// `last_layer`, in order.
pub open spec fn summary_spec(cs: Seq<Connection>, last_layer: int) -> Seq<ConnectionPacked>
    decreases cs.len(),
{
    if cs.len() == 0 {
        Seq::empty()
    } else {
        summary_spec(cs.drop_last(), last_layer) + if cs.last().to.0 == last_layer {
            seq![spec_pack(cs.last())]
        } else {
            Seq::empty()
        }
    }
}

/// Sum over the layers of the squared neuron count.
pub open spec fn max_conns_spec(ls: Seq<Layer>) -> int
    decreases ls.len(),
{
    if ls.len() == 0 {
        0
    } else {
        max_conns_spec(ls.drop_last()) + ls.last().neurons@.len() * ls.last().neurons@.len()
    }
}

proof fn lemma_max_conns_nonneg(ls: Seq<Layer>)
    ensures
        max_conns_spec(ls) >= 0,
    decreases ls.len(),
{
    if ls.len() > 0 {
        lemma_max_conns_nonneg(ls.drop_last());
        let n = ls.last().neurons@.len() as int;
        assert(n * n >= 0) by (nonlinear_arith);
    }
}

proof fn lemma_max_conns_prefix(ls: Seq<Layer>, i: int)
    requires
        0 <= i <= ls.len(),
    ensures
        max_conns_spec(ls.take(i)) <= max_conns_spec(ls),
    decreases ls.len() - i,
{
    if i == ls.len() {
        assert(ls.take(i) =~= ls);
    } else {
        lemma_max_conns_prefix(ls, i + 1);
        assert(ls.take(i + 1).drop_last() =~= ls.take(i));
        let n = ls.take(i + 1).last().neurons@.len() as int;
        assert(n * n >= 0) by (nonlinear_arith);
    }
}

impl NeuralNet {
    /// A stored connection that fits this brain: endpoints exist, the
    /// destination layer is strictly later, and both endpoints pack.
    pub open spec fn conn_ok(&self, c: Connection) -> bool {
        &&& c.from.0 < self.layers@.len()
        &&& c.to.0 < self.layers@.len()
        &&& c.from.1 < self.layers@[c.from.0 as int].neurons@.len()
        &&& c.to.1 < self.layers@[c.to.0 as int].neurons@.len()
        &&& c.from.0 < c.to.0
        &&& representable(c)
    }

    /// Structural soundness: at least two layers, no empty layer, and every
    /// stored connection fits the brain and sits at its source neuron.
    pub open spec fn well_formed(&self) -> bool {
        &&& self.layers@.len() >= 2
        &&& forall|i: int| 0 <= i < self.layers@.len() ==> #[trigger] self.layers@[i].neurons@.len() >= 1
        &&& forall|i: int, j: int, k: int|
            0 <= i < self.layers@.len() && 0 <= j < self.layers@[i].neurons@.len() && 0 <= k
                < self.layers@[i].neurons@[j].connections@.len() ==> {
                let c = #[trigger] self.layers@[i].neurons@[j].connections@[k];
                self.conn_ok(c) && c.from.0 == i && c.from.1 == j
            }
    }

    /// Builds a brain from ordered layer sizes, with no connections yet.
    pub fn new(definition: Vec<usize>) -> (net: NeuralNet)
        requires
            definition@.len() >= 2,
            forall|i: int| 0 <= i < definition@.len() ==> #[trigger] definition@[i] >= 1,
        ensures
            net.well_formed(),
            net.layers@.len() == definition@.len(),
            forall|i: int|
                0 <= i < definition@.len() ==> #[trigger] net.layers@[i].neurons@.len()
                    == definition@[i],
            forall|i: int, j: int|
                0 <= i < definition@.len() && 0 <= j < definition@[i]
                    ==> #[trigger] net.layers@[i].neurons@[j].connections@.len() == 0,
    {
        let mut layers: Vec<Layer> = Vec::new();
        let mut i: usize = 0;
        while i < definition.len()
            invariant
                i <= definition@.len(),
                layers@.len() == i,
                forall|a: int|
                    0 <= a < i ==> #[trigger] layers@[a].neurons@.len() == definition@[a],
                forall|a: int, b: int|
                    0 <= a < i && 0 <= b < definition@[a]
                        ==> #[trigger] layers@[a].neurons@[b].connections@.len() == 0,
            decreases definition@.len() - i,
        {
            let size = definition[i];
            let mut neurons: Vec<Neuron> = Vec::new();
            let mut j: usize = 0;
            while j < size
                invariant
                    j <= size,
                    neurons@.len() == j,
                    forall|b: int| 0 <= b < j ==> #[trigger] neurons@[b].connections@.len() == 0,
                decreases size - j,
            {
                neurons.push(Neuron { connections: Vec::new() });
                j += 1;
            }
            layers.push(Layer { neurons });
            i += 1;
        }
        NeuralNet { layers }
    }

    /// Adds a connection if it fits the brain (existing endpoints, a
    /// strictly later destination layer, packable indices); an unfit
    /// connection is rejected and the brain left unchanged.
    pub fn add_connection(&mut self, from: (usize, usize), to: (usize, usize), weight_milli: i16)
        -> (added: bool)
        ensures
            added <==> old(self).conn_ok(Connection { from, to, weight_milli }),
            !added ==> *final(self) == *old(self),
            final(self).layers@.len() == old(self).layers@.len(),
            added ==> {
                &&& forall|i: int|
                    0 <= i < old(self).layers@.len() && i != from.0 ==> final(self).layers@[i]
                        == old(self).layers@[i]
                &&& final(self).layers@[from.0 as int].neurons@.len() == old(
                    self,
                ).layers@[from.0 as int].neurons@.len()
                &&& forall|j: int|
                    0 <= j < old(self).layers@[from.0 as int].neurons@.len() && j != from.1
                        ==> final(self).layers@[from.0 as int].neurons@[j] == old(
                        self,
                    ).layers@[from.0 as int].neurons@[j]
                &&& final(self).layers@[from.0 as int].neurons@[from.1 as int].connections@ == old(
                    self,
                ).layers@[from.0 as int].neurons@[from.1 as int].connections@.push(
                    (Connection { from, to, weight_milli }),
                )
            },
            old(self).well_formed() ==> final(self).well_formed(),
    {
        let fits = from.0 < self.layers.len() && to.0 < self.layers.len() && from.1
            < self.layers[from.0].neurons.len() && to.1 < self.layers[to.0].neurons.len() && from.0
            < to.0 && from.0 < 16 && from.1 < 16 && to.0 < 16 && to.1 < 16;
        if !fits {
            return false;
        }
        let layer: &mut Layer = &mut self.layers[from.0];
        let neuron: &mut Neuron = &mut layer.neurons[from.1];
        neuron.connections.push(Connection { from, to, weight_milli });
        true
    }

    /// A connection with these endpoints already leaves `from`'s neuron.
    /// Connections are stored at their source, so only that list can hold
    /// a duplicate of the pair.
    pub open spec fn has_connection(&self, from: (usize, usize), to: (usize, usize)) -> bool {
        &&& from.0 < self.layers@.len()
        &&& from.1 < self.layers@[from.0 as int].neurons@.len()
        &&& exists|k: int|
            0 <= k < self.layers@[from.0 as int].neurons@[from.1 as int].connections@.len() && (
            #[trigger] self.layers@[from.0 as int].neurons@[from.1 as int].connections@[k]).from
                == from && self.layers@[from.0 as int].neurons@[from.1 as int].connections@[k].to
                == to
    }

    /// Adds the connection only when it fits the brain and no connection
    /// with the same endpoint pair exists yet; spawners seed distinct
    /// random connections through this.
    pub fn add_unique_connection(
        &mut self,
        from: (usize, usize),
        to: (usize, usize),
        weight_milli: i16,
    ) -> (added: bool)
        ensures
            added <==> (old(self).conn_ok((Connection { from, to, weight_milli })) && !old(
                self,
            ).has_connection(from, to)),
            !added ==> *final(self) == *old(self),
            final(self).layers@.len() == old(self).layers@.len(),
            added ==> {
                &&& forall|i: int|
                    0 <= i < old(self).layers@.len() && i != from.0 ==> final(self).layers@[i]
                        == old(self).layers@[i]
                &&& final(self).layers@[from.0 as int].neurons@.len() == old(
                    self,
                ).layers@[from.0 as int].neurons@.len()
                &&& forall|j: int|
                    0 <= j < old(self).layers@[from.0 as int].neurons@.len() && j != from.1
                        ==> final(self).layers@[from.0 as int].neurons@[j] == old(
                        self,
                    ).layers@[from.0 as int].neurons@[j]
                &&& final(self).layers@[from.0 as int].neurons@[from.1 as int].connections@ == old(
                    self,
                ).layers@[from.0 as int].neurons@[from.1 as int].connections@.push(
                    (Connection { from, to, weight_milli }),
                )
            },
            old(self).well_formed() ==> final(self).well_formed(),
    {
        if from.0 < self.layers.len() && from.1 < self.layers[from.0].neurons.len() {
            let conns = &self.layers[from.0].neurons[from.1].connections;
            let mut k: usize = 0;
            while k < conns.len()
                invariant
                    k <= conns@.len(),
                    conns@ == self.layers@[from.0 as int].neurons@[from.1 as int].connections@,
                    from.0 < self.layers@.len(),
                    from.1 < self.layers@[from.0 as int].neurons@.len(),
                    forall|k2: int|
                        0 <= k2 < k ==> !((#[trigger] conns@[k2]).from == from && conns@[k2].to
                            == to),
                decreases conns@.len() - k,
            {
                let c = conns[k];
                if c.from.0 == from.0 && c.from.1 == from.1 && c.to.0 == to.0 && c.to.1 == to.1 {
                    proof {
                        assert(conns@[k as int].from == from && conns@[k as int].to == to);
                    }
                    return false;
                }
                k += 1;
            }
        }
        self.add_connection(from, to, weight_milli)
    }

    /// Runtime check of structural soundness, for callers that assemble
    /// or alter a brain outside verified code before handing it back.
    pub fn check_well_formed(&self) -> (r: bool)
        ensures
            r == self.well_formed(),
    {
        if self.layers.len() < 2 {
            return false;
        }
        let mut i: usize = 0;
        while i < self.layers.len()
            invariant
                i <= self.layers@.len(),
                self.layers@.len() >= 2,
                forall|a: int| 0 <= a < i ==> #[trigger] self.layers@[a].neurons@.len() >= 1,
                forall|a: int, b: int, k: int|
                    0 <= a < i && 0 <= b < self.layers@[a].neurons@.len() && 0 <= k
                        < self.layers@[a].neurons@[b].connections@.len() ==> {
                        let c = #[trigger] self.layers@[a].neurons@[b].connections@[k];
                        self.conn_ok(c) && c.from.0 == a && c.from.1 == b
                    },
            decreases self.layers@.len() - i,
        {
            let neurons = &self.layers[i].neurons;
            if neurons.len() == 0 {
                return false;
            }
            let mut j: usize = 0;
            while j < neurons.len()
                invariant
                    j <= neurons@.len(),
                    neurons@ == self.layers@[i as int].neurons@,
                    i < self.layers@.len(),
                    forall|b: int, k: int|
                        0 <= b < j && 0 <= k < neurons@[b].connections@.len() ==> {
                            let c = #[trigger] neurons@[b].connections@[k];
                            self.conn_ok(c) && c.from.0 == i && c.from.1 == b
                        },
                decreases neurons@.len() - j,
            {
                let conns = &neurons[j].connections;
                let mut k: usize = 0;
                while k < conns.len()
                    invariant
                        k <= conns@.len(),
                        conns@ == self.layers@[i as int].neurons@[j as int].connections@,
                        neurons@ == self.layers@[i as int].neurons@,
                        i < self.layers@.len(),
                        j < neurons@.len(),
                        forall|k2: int|
                            0 <= k2 < k ==> {
                                let c = #[trigger] conns@[k2];
                                self.conn_ok(c) && c.from.0 == i && c.from.1 == j
                            },
                    decreases conns@.len() - k,
                {
                    let c = conns[k];
                    let fits = c.from.0 == i && c.from.1 == j && c.from.0 < self.layers.len()
                        && c.to.0 < self.layers.len() && c.from.1
                        < self.layers[c.from.0].neurons.len() && c.to.1
                        < self.layers[c.to.0].neurons.len() && c.from.0 < c.to.0 && c.from.0 < 16
                        && c.from.1 < 16 && c.to.0 < 16 && c.to.1 < 16;
                    if !fits {
                        return false;
                    }
                    k += 1;
                }
                j += 1;
            }
            i += 1;
        }
        true
    }

    /// The largest number of connections the random initializer may be
    /// asked for: the sum over the layers of the squared neuron count.
    pub fn max_connections(&self) -> (r: usize)
        requires
            max_conns_spec(self.layers@) <= usize::MAX,
        ensures
            r == max_conns_spec(self.layers@),
    {
        let mut acc: usize = 0;
        let mut i: usize = 0;
        while i < self.layers.len()
            invariant
                i <= self.layers@.len(),
                acc == max_conns_spec(self.layers@.take(i as int)),
                max_conns_spec(self.layers@) <= usize::MAX,
            decreases self.layers@.len() - i,
        {
            let n = self.layers[i].neurons.len();
            proof {
                assert(self.layers@.take(i + 1).drop_last() =~= self.layers@.take(i as int));
                lemma_max_conns_prefix(self.layers@, i + 1);
                assert(n * n >= 0) by (nonlinear_arith);
            }
            acc = acc + n * n;
            i += 1;
        }
        proof {
            assert(self.layers@.take(self.layers@.len() as int) =~= self.layers@);
        }
        acc
    }

    /// Every connection of the brain, in layer, neuron, insertion order.
    pub fn all_connections(&self) -> (r: Vec<Connection>)
        ensures
            r@ == conns_of_layers(self.layers@),
    {
        let mut r: Vec<Connection> = Vec::new();
        let mut i: usize = 0;
        while i < self.layers.len()
            invariant
                i <= self.layers@.len(),
                r@ == conns_of_layers(self.layers@.take(i as int)),
            decreases self.layers@.len() - i,
        {
            let neurons = &self.layers[i].neurons;
            let mut j: usize = 0;
            while j < neurons.len()
                invariant
                    j <= neurons@.len(),
                    neurons@ == self.layers@[i as int].neurons@,
                    i < self.layers@.len(),
                    r@ == conns_of_layers(self.layers@.take(i as int)) + conns_of_neurons(
                        neurons@.take(j as int),
                    ),
                decreases neurons@.len() - j,
            {
                let conns = &neurons[j].connections;
                let mut k: usize = 0;
                while k < conns.len()
                    invariant
                        k <= conns@.len(),
                        conns@ == self.layers@[i as int].neurons@[j as int].connections@,
                        neurons@ == self.layers@[i as int].neurons@,
                        i < self.layers@.len(),
                        j < neurons@.len(),
                        r@ == conns_of_layers(self.layers@.take(i as int)) + conns_of_neurons(
                            neurons@.take(j as int),
                        ) + conns@.take(k as int),
                    decreases conns@.len() - k,
                {
                    r.push(conns[k]);
                    proof {
                        assert(conns@.take(k + 1) =~= conns@.take(k as int).push(conns@[k as int]));
                    }
                    k += 1;
                }
                proof {
                    assert(neurons@.take(j + 1).drop_last() =~= neurons@.take(j as int));
                    assert(conns@.take(conns@.len() as int) =~= conns@);
                    assert(conns_of_neurons(neurons@.take(j + 1)) == conns_of_neurons(
                        neurons@.take(j as int),
                    ) + conns@);
                }
                j += 1;
            }
            proof {
                assert(self.layers@.take(i + 1).drop_last() =~= self.layers@.take(i as int));
                assert(neurons@.take(neurons@.len() as int) =~= neurons@);
            }
            i += 1;
        }
        proof {
            assert(self.layers@.take(self.layers@.len() as int) =~= self.layers@);
        }
        r
    }

    /// The packed records of the brain's direct input-to-output
    /// connections: those leaving the first layer and ending in the last.
    pub fn get_summary_connections(&self) -> (r: Vec<ConnectionPacked>)
        requires
            self.well_formed(),
        ensures
            r@ == summary_spec(
                conns_of_neurons(self.layers@[0].neurons@),
                self.layers@.len() - 1,
            ),
    {
        let last_layer_index = self.layers.len() - 1;
        let neurons = &self.layers[0].neurons;
        let ghost full = conns_of_neurons(neurons@);
        let mut r: Vec<ConnectionPacked> = Vec::new();
        let mut j: usize = 0;
        while j < neurons.len()
            invariant
                j <= neurons@.len(),
                neurons@ == self.layers@[0].neurons@,
                self.well_formed(),
                last_layer_index == self.layers@.len() - 1,
                r@ == summary_spec(
                    conns_of_neurons(neurons@.take(j as int)),
                    last_layer_index as int,
                ),
            decreases neurons@.len() - j,
        {
            let conns = &neurons[j].connections;
            let mut k: usize = 0;
            while k < conns.len()
                invariant
                    k <= conns@.len(),
                    conns@ == self.layers@[0].neurons@[j as int].connections@,
                    neurons@ == self.layers@[0].neurons@,
                    self.well_formed(),
                    j < neurons@.len(),
                    last_layer_index == self.layers@.len() - 1,
                    r@ == summary_spec(
                        conns_of_neurons(neurons@.take(j as int)) + conns@.take(k as int),
                        last_layer_index as int,
                    ),
                decreases conns@.len() - k,
            {
                let c = conns[k];
                proof {
                    assert(self.conn_ok(c) && c.from.0 == 0 && c.from.1 == j);
                    lemma_summary_step(
                        conns_of_neurons(neurons@.take(j as int)),
                        conns@,
                        k as int,
                        last_layer_index as int,
                    );
                }
                if c.to.0 == last_layer_index {
                    let from: u8 = (c.from.0 * 16 + c.from.1) as u8;
                    let to: u8 = (c.to.0 * 16 + c.to.1) as u8;
                    r.push(ConnectionPacked { from, to, weight: c.weight_milli });
                    proof {
                        assert(r@.last() == spec_pack(c));
                        assert(r@ =~= summary_spec(
                            conns_of_neurons(neurons@.take(j as int)) + conns@.take(k + 1),
                            last_layer_index as int,
                        ));
                    }
                } else {
                    proof {
                        assert(r@ =~= summary_spec(
                            conns_of_neurons(neurons@.take(j as int)) + conns@.take(k + 1),
                            last_layer_index as int,
                        ));
                    }
                }
                k += 1;
            }
            proof {
                assert(neurons@.take(j + 1).drop_last() =~= neurons@.take(j as int));
                assert(conns@.take(conns@.len() as int) =~= conns@);
                assert(conns_of_neurons(neurons@.take(j + 1)) =~= conns_of_neurons(
                    neurons@.take(j as int),
                ) + conns@);
                assert(conns_of_neurons(neurons@.take(j as int)) + conns@.take(conns@.len() as int)
                    =~= conns_of_neurons(neurons@.take(j + 1)));
            }
            j += 1;
        }
        proof {
            assert(neurons@.take(neurons@.len() as int) =~= neurons@);
        }
        r
    }
}

/// Appending one more connection to the scanned prefix extends the summary
/// by that connection's record exactly when it ends in the last layer.
proof fn lemma_summary_step(prefix: Seq<Connection>, conns: Seq<Connection>, k: int, last: int)
    requires
        0 <= k < conns.len(),
    ensures
        summary_spec(prefix + conns.take(k + 1), last) == summary_spec(
            prefix + conns.take(k),
            last,
        ) + (if conns[k].to.0 == last {
            seq![spec_pack(conns[k])]
        } else {
            Seq::<ConnectionPacked>::empty()
        }),
{
    assert((prefix + conns.take(k + 1)).drop_last() =~= prefix + conns.take(k));
    assert((prefix + conns.take(k + 1)).last() == conns[k]);
}

} // verus!
