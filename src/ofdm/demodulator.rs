use vstd::prelude::*;

use crate::ofdm::constants::{
    extracted, layout_error, symbol_length, BufferLengthError, LayoutError, OFDMConstants,
};
use crate::qam::{unpack, unpacked_len, QAMModem, QAMOrder};

verus! {

/// The receiving half of the modem, up to the frequency transform and the
/// rounding of equalized bins to grid positions, which the caller does.
pub struct OFDMDemodulator {
    pub qam_modem: QAMModem,
    pub constants: OFDMConstants,
}

/// What an [`OFDMDemodulator`] is built from.
pub struct OFDMDemodulatorConfig {
    pub num_subcarriers: u32,
    /// Length of the cyclic prefix in samples; a symbol's block has
    /// `2 * num_subcarriers` samples.
    pub cyclic_prefix_length: u32,
    /// A pilot sits on every subcarrier whose index is a multiple of this.
    pub pilot_subcarrier_every: u32,
    pub qam_order: QAMOrder,
}

impl Default for OFDMDemodulatorConfig {
    fn default() -> (r: Self)
        ensures
            r.num_subcarriers == 0,
            r.cyclic_prefix_length == 0,
            r.pilot_subcarrier_every == 4,
            r.qam_order == QAMOrder::QAM4,
    {
        OFDMDemodulatorConfig {
            num_subcarriers: 0,
            cyclic_prefix_length: 0,
            pilot_subcarrier_every: 4,
            qam_order: QAMOrder::QAM4,
        }
    }
}

impl OFDMDemodulator {
    pub open spec fn wf(&self) -> bool {
        &&& self.constants.wf()
        &&& self.qam_modem.order == self.constants.qam_order
    }

    /// The demodulator was built from `config`.
    pub open spec fn built_from(&self, config: &OFDMDemodulatorConfig) -> bool {
        &&& self.constants.num_subcarriers == config.num_subcarriers
        &&& self.constants.cyclic_prefix_length == config.cyclic_prefix_length
        &&& self.constants.pilot_subcarrier_every == config.pilot_subcarrier_every
        &&& self.constants.qam_order == config.qam_order
    }

    pub open spec fn symbol_len(&self) -> nat {
        self.constants.symbol_len()
    }

    /// Bytes that one symbol yields: the data subcarriers' bits, a trailing
    /// partial byte padded with zero bits.
    pub open spec fn output_len(&self) -> nat {
        unpacked_len(self.constants.data_len(), self.constants.bps())
    }

    /// Builds the demodulator, with the layout that `config` determines.
    pub fn new(config: OFDMDemodulatorConfig) -> (r: Result<Self, LayoutError>)
        ensures
            match r {
                Ok(d) => d.wf() && d.built_from(&config),
                Err(e) => layout_error(
                    config.num_subcarriers as nat,
                    config.pilot_subcarrier_every as nat,
                    config.cyclic_prefix_length as nat,
                ) == Some(e),
            },
            r.is_ok() <==> layout_error(
                config.num_subcarriers as nat,
                config.pilot_subcarrier_every as nat,
                config.cyclic_prefix_length as nat,
            ).is_none(),
    {
        let qam_modem = QAMModem::new(config.qam_order);
        let constants = OFDMConstants::new(
            config.num_subcarriers,
            config.pilot_subcarrier_every,
            config.cyclic_prefix_length,
            config.qam_order,
            qam_modem.bits_per_symbol(),
        );
        match constants {
            Ok(constants) => Ok(OFDMDemodulator { qam_modem, constants }),
            Err(e) => Err(e),
        }
    }

    /// Samples in one symbol: `2 * num_subcarriers + cyclic_prefix_length`.
    pub fn get_symbol_length(&self) -> (r: usize)
        requires
            self.wf(),
        ensures
            r as nat == symbol_length(
                self.constants.num_subcarriers as nat,
                self.constants.cyclic_prefix_length as nat,
            ),
    {
        self.constants.symbol_length()
    }

    /// Bytes that one symbol yields.
    pub fn output_byte_length(&self) -> (r: usize)
        requires
            self.wf(),
        ensures
            r as nat == self.output_len(),
    {
        proof {
            self.constants.lemma_wf();
        }
        let len = self.constants.data_subcarrier_indices.len() as u64;
        assert(len * self.constants.bits_per_symbol <= 8 * len) by (nonlinear_arith)
            requires
                self.constants.bits_per_symbol <= 8,
        ;
        let bits = len * self.constants.bits_per_symbol as u64;
        assert((bits + 7) / 8 <= len + 1);
        ((bits + 7) / 8) as usize
    }

    /// Drops the cyclic prefix of a received symbol and keeps its
    /// `2 * num_subcarriers` block. A buffer of any other length than one
    /// symbol is refused whole.
    pub fn remove_cyclic_prefix<T: Copy>(&self, input: &[T]) -> (r: Result<Vec<T>, BufferLengthError>)
        requires
            self.wf(),
        ensures
            match r {
                Ok(block) => input@.len() == self.symbol_len() && block@ == input@.subrange(
                    self.constants.cyclic_prefix_length as int,
                    input@.len() as int,
                ),
                Err(e) => input@.len() != self.symbol_len() && e.expected as nat == self.symbol_len()
                    && e.actual == input@.len(),
            },
    {
        let expected = self.get_symbol_length();
        if input.len() != expected {
            return Err(BufferLengthError { expected, actual: input.len() });
        }
        let cp = self.constants.cyclic_prefix_length as usize;
        let mut block: Vec<T> = Vec::new();
        let mut i: usize = cp;
        while i < input.len()
            invariant
                cp <= i <= input@.len(),
                cp as nat <= self.symbol_len() == input@.len(),
                cp == self.constants.cyclic_prefix_length,
                block@ == input@.subrange(cp as int, i as int),
            decreases input@.len() - i,
        {
            block.push(input[i]);
            i = i + 1;
            assert(block@ =~= input@.subrange(cp as int, i as int));
        }
        Ok(block)
    }

    /// The bins of the data subcarriers, in ascending subcarrier order, out of
    /// the `num_subcarriers + 1` bins of a transformed block.
    pub fn extract_data_subcarriers<T: Copy>(&self, bins: &[T]) -> (r: Vec<T>)
        requires
            self.wf(),
            bins@.len() == self.constants.num_subcarriers + 1,
        ensures
            r@ == extracted(bins@, self.constants.data_subcarrier_indices@),
    {
        proof {
            self.constants.lemma_wf();
        }
        let indices = &self.constants.data_subcarrier_indices;
        let mut r: Vec<T> = Vec::new();
        let mut j: usize = 0;
        while j < indices.len()
            invariant
                self.wf(),
                indices == &self.constants.data_subcarrier_indices,
                bins@.len() == self.constants.num_subcarriers + 1,
                forall|jj: int| 0 <= jj < indices@.len() ==> #[trigger] indices@[jj] < self.constants.num_subcarriers,
                j <= indices@.len(),
                r@ == extracted(bins@, indices@).subrange(0, j as int),
            decreases indices@.len() - j,
        {
            r.push(bins[indices[j] as usize]);
            j = j + 1;
            assert(r@ =~= extracted(bins@, indices@).subrange(0, j as int));
        }
        assert(r@ =~= extracted(bins@, indices@));
        r
    }

    /// Decides the symbol at each pair of grid positions and joins the
    /// symbols' bits into bytes, a trailing partial byte padded with zeros.
    pub fn demodulate_grid_positions(&self, positions: &[(i64, i64)]) -> (r: Vec<u8>)
        requires
            self.wf(),
            positions@.len() == self.constants.data_len(),
        ensures
            r@.len() == self.output_len(),
            forall|i: int| 0 <= i < r@.len() ==> #[trigger] r@[i] as nat == unpack(self.qam_modem.decide_all(positions@), self.constants.bps())[i],
    {
        proof {
            self.constants.lemma_wf();
        }
        self.qam_modem.demodulate(positions)
    }
}

} // verus!
