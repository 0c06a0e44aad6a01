use vstd::prelude::*;

use crate::ofdm::constants::{extracted, is_placement, symbol_length, with_cyclic_prefix};
use crate::ofdm::demodulator::{OFDMDemodulator, OFDMDemodulatorConfig};
use crate::ofdm::modulator::{OFDMModulator, OFDMModulatorConfig};
use crate::qam::{
    byte_stream, fit, grid_position, lemma_bits_value_bound, lemma_unpack_pack, pack, unpack,
    unpacked_len,
};

verus! {

/// A modulator and a demodulator built from configurations with the same
/// fields.
pub open spec fn paired(m: &OFDMModulator, d: &OFDMDemodulator) -> bool {
    &&& m.wf()
    &&& d.wf()
    &&& m.constants.num_subcarriers == d.constants.num_subcarriers
    &&& m.constants.cyclic_prefix_length == d.constants.cyclic_prefix_length
    &&& m.constants.pilot_subcarrier_every == d.constants.pilot_subcarrier_every
    &&& m.constants.qam_order == d.constants.qam_order
}

/// A modulator and a demodulator built from equal configurations agree on
/// the symbol length, and it is `2 * num_subcarriers + cyclic_prefix_length`.
pub proof fn lemma_symbol_length_agreement(
    mc: &OFDMModulatorConfig,
    dc: &OFDMDemodulatorConfig,
    m: &OFDMModulator,
    d: &OFDMDemodulator,
)
    requires
        mc.num_subcarriers == dc.num_subcarriers,
        mc.cyclic_prefix_length == dc.cyclic_prefix_length,
        mc.pilot_subcarrier_every == dc.pilot_subcarrier_every,
        mc.qam_order == dc.qam_order,
        m.wf(),
        m.built_from(mc),
        d.wf(),
        d.built_from(dc),
    ensures
        paired(m, d),
        m.symbol_len() == d.symbol_len(),
        d.symbol_len() == symbol_length(mc.num_subcarriers as nat, mc.cyclic_prefix_length as nat),
{
}

/// Removing the cyclic prefix of a framed block gives the block back.
pub proof fn lemma_cyclic_prefix_round_trip<T>(block: Seq<T>, cp: nat)
    requires
        cp <= block.len(),
    ensures
        with_cyclic_prefix(block, cp).subrange(cp as int, (block.len() + cp) as int) == block,
{
    assert(with_cyclic_prefix(block, cp).subrange(cp as int, (block.len() + cp) as int) =~= block);
}

/// The noiseless round trip of one symbol's payload, from bytes to
/// frequency bins and from frequency bins to bytes: place the payload's
/// constellation points with any pilot and zero values, take the data bins
/// back out, round each to its exact grid position, and decide and unpack
/// them. The result is the payload followed by zero bytes up to one
/// symbol's output length; when the data subcarriers carry a whole number of
/// bytes, it is exactly the payload.
pub proof fn lemma_noiseless_round_trip(
    m: &OFDMModulator,
    d: &OFDMDemodulator,
    bytes: Seq<u8>,
    bins: Seq<(int, int)>,
    zero: (int, int),
    pilot: (int, int),
    positions: Seq<(i64, i64)>,
)
    requires
        paired(m, d),
        bytes.len() == m.constants.capacity(),
        is_placement(
            bins,
            m.constants.num_subcarriers as nat,
            m.constants.pilot_subcarrier_every as nat,
            m.qam_modem.points_of(bytes, m.constants.data_len()),
            zero,
            pilot,
        ),
        positions.len() == d.constants.data_len(),
        forall|j: int| 0 <= j < positions.len() ==> {
            let b = #[trigger] extracted(bins, d.constants.data_subcarrier_indices@)[j];
            &&& positions[j].0 as int == grid_position(d.qam_modem.side(), b.0)
            &&& positions[j].1 as int == grid_position(d.qam_modem.side(), b.1)
        },
    ensures
        ({
            let out = unpack(d.qam_modem.decide_all(positions), d.constants.bps());
            &&& out.len() == d.output_len()
            &&& bytes.len() <= out.len()
            &&& forall|i: int| 0 <= i < bytes.len() ==> #[trigger] out[i] == bytes[i] as nat
            &&& forall|i: int| bytes.len() <= i < out.len() ==> #[trigger] out[i] == 0
            &&& (d.constants.data_len() * d.constants.bps()) % 8 == 0 ==> out.len() == bytes.len()
        }),
{
    m.constants.lemma_wf();
    let q = d.qam_modem;
    let w = d.constants.bps();
    let count = d.constants.data_len();
    let data = d.constants.data_subcarrier_indices@;
    let decided = q.decide_all(positions);
    let packed = pack(bytes, w, count);
    assert(8 * bytes.len() <= count * w) by (nonlinear_arith)
        requires
            bytes.len() == count * w / 8,
    ;
    assert forall|j: int| 0 <= j < count implies #[trigger] decided[j] as nat == packed[j] by {
        assert(j * w + w <= count * w) by (nonlinear_arith)
            requires
                0 <= j < count,
        ;
        let chunk = fit(byte_stream(bytes), count * w).subrange(j * w, j * w + w);
        lemma_bits_value_bound(chunk);
        q.lemma_sizes();
        q.lemma_decide_point(packed[j]);
        let b = extracted(bins, data)[j];
        assert(bins[data[j] as int] == m.qam_modem.points_of(bytes, count)[j]);
        assert(b == q.point(packed[j]));
    }
    lemma_unpack_pack(bytes, w, count, decided);
    if (count * w) % 8 == 0 {
        assert(unpacked_len(count, w) == count * w / 8);
    }
}

} // verus!
