//! Genes and genomes: the hex-text form of packed connection records, and
//! the per-gene colour contribution that the rendering layer blends.

use vstd::prelude::*;

use crate::codec::{
    decode_hex_text, valid_hex, decoded_bytes, hex_of_bytes, hex_digit, hex_val, is_hex_digit,
    first_non_hex, CodecError,
};
use crate::neural::{
    NeuralNet, ConnectionPacked, packed_bytes, gene_chars, bits_to_i16, i16_bits,
    conns_of_layers, conns_of_neurons, summary_spec, representable,
};

verus! {

/// A gene: the 8-character hex text of one packed connection record.
#[derive(Clone, Debug)]
pub struct Gene(String);

/// The integer part of a gene's colour: a hue on the circle and a
/// saturation magnitude in thousandths (the weight magnitude; the display
/// layer scales it by the configured weight range).
#[derive(Copy, Clone, PartialEq, Eq, Structural, Debug)]
pub struct GeneColor {
    pub hue: u16,
    pub saturation_milli: u16,
}

/// Well-formed gene text: exactly eight hex digits.
pub open spec fn gene_wf(s: Seq<char>) -> bool {
    s.len() == 8 && valid_hex(s)
}

/// The fixed-point weight a gene carries, read little-endian from its
/// third and fourth bytes.
pub open spec fn gene_weight_milli(s: Seq<char>) -> int {
    bits_to_i16(decoded_bytes(s)[2] as int + 256 * (decoded_bytes(s)[3] as int))
}

/// The gene body: the first two bytes as one big-endian 16-bit value.
pub open spec fn gene_body(s: Seq<char>) -> int {
    decoded_bytes(s)[0] as int * 256 + decoded_bytes(s)[1] as int
}

/// The hue of a gene: its body reduced to the colour circle, rotated by a
/// half turn when the weight is negative.
pub open spec fn gene_hue(s: Seq<char>) -> int {
    if gene_weight_milli(s) < 0 {
        (gene_body(s) % 360 + 180) % 360
    } else {
        gene_body(s) % 360
    }
}

/// The saturation magnitude of a gene: the absolute weight, in thousandths.
pub open spec fn gene_saturation_milli(s: Seq<char>) -> int {
    if gene_weight_milli(s) >= 0 {
        gene_weight_milli(s)
    } else {
        -gene_weight_milli(s)
    }
}

/// The error that reading ill-formed gene text reports: an odd length
/// first, then the first bad character, then a wrong record size.
pub open spec fn gene_error(s: Seq<char>) -> CodecError {
    if s.len() % 2 != 0 {
        CodecError::OddLength
    } else if !valid_hex(s) {
        (CodecError::InvalidHexCharacter {
            c: s[first_non_hex(s, 0)],
            index: first_non_hex(s, 0) as usize,
        })
    } else {
        CodecError::WrongLength
    }
}

impl View for Gene {
    type V = Seq<char>;

    closed spec fn view(&self) -> Seq<char> {
        self.0@
    }
}

impl Gene {
    /// Wraps gene text; nothing is checked until the gene is read.
    pub fn new(text: String) -> (g: Gene)
        ensures
            g@ == text@,
    {
        Gene(text)
    }

    /// The gene's text.
    pub fn text(&self) -> (r: &String)
        ensures
            r@ == self@,
    {
        &self.0
    }

    /// The gene's fixed-point weight, in thousandths.
    pub fn get_weight_milli(&self) -> (r: Result<i16, CodecError>)
        ensures
            r is Ok <==> gene_wf(self@),
            r matches Ok(w) ==> w as int == gene_weight_milli(self@),
            r matches Err(e) ==> e == gene_error(self@),
    {
        let bytes = match decode_hex_text(self.0.as_str()) {
            Ok(b) => b,
            Err(e) => {
                return Err(e);
            },
        };
        if bytes.len() != 4 {
            return Err(CodecError::WrongLength);
        }
        let v: u32 = bytes[2] as u32 + 256 * (bytes[3] as u32);
        if v < 0x8000 {
            Ok(v as i16)
        } else {
            Ok((v as i32 - 0x10000) as i16)
        }
    }

    /// The gene's colour contribution: hue from the gene body, saturation
    /// from the weight magnitude.
    pub fn get_color(&self) -> (r: Result<GeneColor, CodecError>)
        ensures
            r is Ok <==> gene_wf(self@),
            r matches Ok(c) ==> c.hue as int == gene_hue(self@) && c.saturation_milli as int
                == gene_saturation_milli(self@),
            r matches Err(e) ==> e == gene_error(self@),
    {
        let weight = match self.get_weight_milli() {
            Ok(w) => w,
            Err(e) => {
                return Err(e);
            },
        };
        let bytes = match decode_hex_text(self.0.as_str()) {
            Ok(b) => b,
            Err(e) => {
                return Err(e);
            },
        };
        if bytes.len() != 4 {
            return Err(CodecError::WrongLength);
        }
        let body: u32 = (bytes[0] as u32) * 256 + (bytes[1] as u32);
        let base: u32 = body % 360;
        let hue: u32 = if weight < 0 {
            (base + 180) % 360
        } else {
            base
        };
        let saturation: u16 = if weight >= 0 {
            weight as u16
        } else {
            (-(weight as i32)) as u16
        };
        Ok(GeneColor { hue: hue as u16, saturation_milli: saturation })
    }
}

/// An agent's genome: the gene of every connection of its brain, plus the
/// trait subset — genes of the direct input-to-output connections — that
/// alone drives the display colour.
#[derive(Clone, Debug)]
pub struct Genome {
    genes: Vec<Gene>,
    traits: Vec<Gene>,
}

impl Genome {
    /// The text of every gene, in order.
    pub closed spec fn genes_view(&self) -> Seq<Seq<char>> {
        self.genes@.map_values(|g: Gene| g@)
    }

    /// The text of every trait gene, in order.
    pub closed spec fn traits_view(&self) -> Seq<Seq<char>> {
        self.traits@.map_values(|g: Gene| g@)
    }

    pub fn new(genes: Vec<Gene>, traits: Vec<Gene>) -> (g: Genome)
        ensures
            g.genes_view() == genes@.map_values(|x: Gene| x@),
            g.traits_view() == traits@.map_values(|x: Gene| x@),
    {
        Genome { genes, traits }
    }

    pub fn length(&self) -> (r: usize)
        ensures
            r == self.genes_view().len(),
    {
        self.genes.len()
    }

    /// How many trait genes the genome holds.
    pub fn trait_count(&self) -> (r: usize)
        ensures
            r == self.traits_view().len(),
    {
        self.traits.len()
    }

    /// The `i`-th gene.
    pub fn get_gene(&self, i: usize) -> (r: &Gene)
        requires
            i < self.genes_view().len(),
        ensures
            r@ == self.genes_view()[i as int],
    {
        &self.genes[i]
    }

    /// The `i`-th trait gene.
    pub fn get_trait(&self, i: usize) -> (r: &Gene)
        requires
            i < self.traits_view().len(),
        ensures
            r@ == self.traits_view()[i as int],
    {
        &self.traits[i]
    }

    /// The colour contribution of every trait gene, in order; the first
    /// ill-formed trait gene's error otherwise.
    pub fn trait_colors(&self) -> (r: Result<Vec<GeneColor>, CodecError>)
        ensures
            r is Ok <==> (forall|t: int|
                0 <= t < self.traits_view().len() ==> gene_wf(#[trigger] self.traits_view()[t])),
            r matches Ok(cs) ==> cs@.len() == self.traits_view().len() && (forall|t: int|
                0 <= t < cs@.len() ==> (#[trigger] cs@[t]).hue as int == gene_hue(
                    self.traits_view()[t],
                ) && cs@[t].saturation_milli as int == gene_saturation_milli(
                    self.traits_view()[t],
                )),
            r matches Err(e) ==> (exists|t: int|
                0 <= t < self.traits_view().len() && !gene_wf(#[trigger] self.traits_view()[t])
                    && e == gene_error(self.traits_view()[t]) && (forall|j: int|
                    0 <= j < t ==> gene_wf(#[trigger] self.traits_view()[j]))),
    {
        let mut r: Vec<GeneColor> = Vec::new();
        let mut t: usize = 0;
        while t < self.traits.len()
            invariant
                t <= self.traits@.len(),
                r@.len() == t,
                forall|j: int| 0 <= j < t ==> gene_wf(#[trigger] self.traits_view()[j]),
                forall|j: int|
                    0 <= j < t ==> (#[trigger] r@[j]).hue as int == gene_hue(self.traits_view()[j])
                        && r@[j].saturation_milli as int == gene_saturation_milli(
                        self.traits_view()[j],
                    ),
            decreases self.traits@.len() - t,
        {
            match self.traits[t].get_color() {
                Ok(c) => {
                    r.push(c);
                },
                Err(e) => {
                    proof {
                        assert(self.traits_view()[t as int] == self.traits@[t as int]@);
                    }
                    return Err(e);
                },
            }
            t += 1;
        }
        Ok(r)
    }

    /// Encodes a brain: one gene per connection, and one trait gene per
    /// direct input-to-output connection.
    pub fn from_net(net: &NeuralNet) -> (g: Genome)
        requires
            net.well_formed(),
        ensures
            g.genes_view().len() == conns_of_layers(net.layers@).len(),
            forall|i: int|
                0 <= i < g.genes_view().len() ==> #[trigger] g.genes_view()[i] == gene_chars(
                    conns_of_layers(net.layers@)[i],
                ),
            g.traits_view().len() == summary_spec(
                conns_of_neurons(net.layers@[0].neurons@),
                net.layers@.len() - 1,
            ).len(),
            forall|i: int|
                0 <= i < g.traits_view().len() ==> #[trigger] g.traits_view()[i] == hex_of_bytes(
                    packed_bytes(
                        summary_spec(
                            conns_of_neurons(net.layers@[0].neurons@),
                            net.layers@.len() - 1,
                        )[i],
                    ),
                ),
    {
        let conns = net.all_connections();
        let ghost all = conns_of_layers(net.layers@);
        proof {
            lemma_conns_of_layers_ok(net, net.layers@.len() as int);
        }
        let mut genes: Vec<Gene> = Vec::new();
        let mut i: usize = 0;
        while i < conns.len()
            invariant
                i <= conns@.len(),
                conns@ == all,
                forall|k: int| 0 <= k < all.len() ==> representable(#[trigger] all[k]),
                genes@.len() == i,
                forall|k: int|
                    0 <= k < i ==> (#[trigger] genes@[k])@ == gene_chars(all[k]),
            decreases conns@.len() - i,
        {
            let c = conns[i];
            let packed = match c.to_packed() {
                Ok(p) => p,
                Err(_) => {
                    proof {
                        assert(false);
                    }
                    ConnectionPacked { from: 0, to: 0, weight: 0 }
                },
            };
            genes.push(Gene(packed.to_hex()));
            i += 1;
        }
        let summary = net.get_summary_connections();
        let mut traits: Vec<Gene> = Vec::new();
        let mut t: usize = 0;
        while t < summary.len()
            invariant
                t <= summary@.len(),
                summary@ == summary_spec(
                    conns_of_neurons(net.layers@[0].neurons@),
                    net.layers@.len() - 1,
                ),
                traits@.len() == t,
                forall|k: int|
                    0 <= k < t ==> (#[trigger] traits@[k])@ == hex_of_bytes(
                        packed_bytes(summary@[k]),
                    ),
            decreases summary@.len() - t,
        {
            traits.push(Gene(summary[t].to_hex()));
            t += 1;
        }
        Genome { genes, traits }
    }
}

/// Every connection collected from the first `upto` layers of a
/// well-formed brain is representable.
proof fn lemma_conns_of_layers_ok(net: &NeuralNet, upto: int)
    requires
        net.well_formed(),
        0 <= upto <= net.layers@.len(),
    ensures
        forall|k: int|
            0 <= k < conns_of_layers(net.layers@.take(upto)).len() ==> representable(
                #[trigger] conns_of_layers(net.layers@.take(upto))[k],
            ),
        upto == net.layers@.len() ==> (forall|k: int|
            0 <= k < conns_of_layers(net.layers@).len() ==> representable(
                #[trigger] conns_of_layers(net.layers@)[k],
            )),
    decreases upto,
{
    if upto > 0 {
        lemma_conns_of_layers_ok(net, upto - 1);
        assert(net.layers@.take(upto).drop_last() =~= net.layers@.take(upto - 1));
        assert(net.layers@.take(upto).last() == net.layers@[upto - 1]);
        lemma_conns_of_neurons_ok(net, upto - 1, net.layers@[upto - 1].neurons@.len() as int);
        let a = conns_of_layers(net.layers@.take(upto - 1));
        let b = conns_of_neurons(net.layers@[upto - 1].neurons@);
        assert(conns_of_layers(net.layers@.take(upto)) == a + b);
        assert forall|k: int|
            0 <= k < conns_of_layers(net.layers@.take(upto)).len() implies representable(
            #[trigger] conns_of_layers(net.layers@.take(upto))[k],
        ) by {
            if k < a.len() {
                assert(conns_of_layers(net.layers@.take(upto))[k] == a[k]);
            } else {
                assert(conns_of_layers(net.layers@.take(upto))[k] == b[k - a.len()]);
            }
        }
    }
    if upto == net.layers@.len() {
        assert(net.layers@.take(upto) =~= net.layers@);
    }
}

/// Every connection leaving the first `upto` neurons of layer `i` of a
/// well-formed brain is representable.
proof fn lemma_conns_of_neurons_ok(net: &NeuralNet, i: int, upto: int)
    requires
        net.well_formed(),
        0 <= i < net.layers@.len(),
        0 <= upto <= net.layers@[i].neurons@.len(),
    ensures
        forall|k: int|
            0 <= k < conns_of_neurons(net.layers@[i].neurons@.take(upto)).len() ==> representable(
                #[trigger] conns_of_neurons(net.layers@[i].neurons@.take(upto))[k],
            ),
        upto == net.layers@[i].neurons@.len() ==> (forall|k: int|
            0 <= k < conns_of_neurons(net.layers@[i].neurons@).len() ==> representable(
                #[trigger] conns_of_neurons(net.layers@[i].neurons@)[k],
            )),
    decreases upto,
{
    let ns = net.layers@[i].neurons@;
    if upto > 0 {
        lemma_conns_of_neurons_ok(net, i, upto - 1);
        assert(ns.take(upto).drop_last() =~= ns.take(upto - 1));
        assert(ns.take(upto).last() == ns[upto - 1]);
        let a = conns_of_neurons(ns.take(upto - 1));
        let b = ns[upto - 1].connections@;
        assert(conns_of_neurons(ns.take(upto)) == a + b);
        assert forall|k: int|
            0 <= k < conns_of_neurons(ns.take(upto)).len() implies representable(
            #[trigger] conns_of_neurons(ns.take(upto))[k],
        ) by {
            if k < a.len() {
                assert(conns_of_neurons(ns.take(upto))[k] == a[k]);
            } else {
                assert(conns_of_neurons(ns.take(upto))[k] == b[k - a.len()]);
                assert(net.conn_ok(net.layers@[i].neurons@[upto - 1].connections@[k - a.len()]));
            }
        }
    }
    if upto == ns.len() {
        assert(ns.take(upto) =~= ns);
    }
}

/// Reading back the hex text of a byte string gives the bytes unchanged.
pub proof fn lemma_hex_roundtrip(b: Seq<u8>)
    ensures
        valid_hex(hex_of_bytes(b)),
        decoded_bytes(hex_of_bytes(b)) =~= b,
{
    let s = hex_of_bytes(b);
    assert forall|i: int| 0 <= i < s.len() implies is_hex_digit(#[trigger] s[i]) by {
        if i % 2 == 0 {
            lemma_hex_digit_props(b[i / 2] as int / 16);
        } else {
            lemma_hex_digit_props(b[i / 2] as int % 16);
        }
    }
    assert forall|i: int| 0 <= i < b.len() implies decoded_bytes(s)[i] == b[i] by {
        assert(s[2 * i] == hex_digit(b[i] as int / 16));
        assert(s[2 * i + 1] == hex_digit(b[i] as int % 16));
        lemma_hex_digit_props(b[i] as int / 16);
        lemma_hex_digit_props(b[i] as int % 16);
        assert(b[i] as int / 16 * 16 + b[i] as int % 16 == b[i] as int);
    }
}

/// Round-trip law for gene text: the hex text that a packed record writes
/// is well-formed gene text and reads back to the same record.
pub proof fn lemma_gene_text_roundtrip(p: ConnectionPacked)
    ensures
        gene_wf(hex_of_bytes(packed_bytes(p))),
        decoded_bytes(hex_of_bytes(packed_bytes(p)))[0] == p.from,
        decoded_bytes(hex_of_bytes(packed_bytes(p)))[1] == p.to,
        gene_weight_milli(hex_of_bytes(packed_bytes(p))) == p.weight as int,
{
    lemma_hex_roundtrip(packed_bytes(p));
    crate::neural::lemma_weight_bits_roundtrip(p.weight);
    let b = packed_bytes(p);
    assert(0 <= i16_bits(p.weight as int) < 0x10000);
    assert(b[2] as int == i16_bits(p.weight as int) % 256);
    assert(b[3] as int == i16_bits(p.weight as int) / 256);
}

/// A hex digit's character is a digit and reads back to its value.
proof fn lemma_hex_digit_props(v: int)
    requires
        0 <= v < 16,
    ensures
        is_hex_digit(hex_digit(v)),
        hex_val(hex_digit(v)) == v,
{
}

} // verus!
