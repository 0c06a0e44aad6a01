use vstd::prelude::*;

use crate::ofdm::constants::{
    is_data, is_pilot, is_placement, layout_error, symbol_length, with_cyclic_prefix,
    BufferLengthError, LayoutError, OFDMConstants,
};
use crate::qam::{QAMModem, QAMOrder};

verus! {

/// The sending half of the modem, up to the inverse frequency transform,
/// which the caller runs between subcarrier placement and framing.
pub struct OFDMModulator {
    pub qam_modem: QAMModem,
    pub constants: OFDMConstants,
}

/// What an [`OFDMModulator`] is built from.
pub struct OFDMModulatorConfig {
    pub num_subcarriers: u32,
    /// Length of the cyclic prefix in samples; a symbol's block has
    /// `2 * num_subcarriers` samples.
    pub cyclic_prefix_length: u32,
    /// A pilot sits on every subcarrier whose index is a multiple of this.
    pub pilot_subcarrier_every: u32,
    pub qam_order: QAMOrder,
}

impl Default for OFDMModulatorConfig {
    fn default() -> (r: Self)
        ensures
            r.num_subcarriers == 0,
            r.cyclic_prefix_length == 0,
            r.pilot_subcarrier_every == 4,
            r.qam_order == QAMOrder::QAM4,
    {
        OFDMModulatorConfig {
            num_subcarriers: 0,
            cyclic_prefix_length: 0,
            pilot_subcarrier_every: 4,
            qam_order: QAMOrder::QAM4,
        }
    }
}

impl OFDMModulator {
    pub open spec fn wf(&self) -> bool {
        &&& self.constants.wf()
        &&& self.qam_modem.order == self.constants.qam_order
    }

    /// The modulator was built from `config`.
    pub open spec fn built_from(&self, config: &OFDMModulatorConfig) -> bool {
        &&& self.constants.num_subcarriers == config.num_subcarriers
        &&& self.constants.cyclic_prefix_length == config.cyclic_prefix_length
        &&& self.constants.pilot_subcarrier_every == config.pilot_subcarrier_every
        &&& self.constants.qam_order == config.qam_order
    }

    pub open spec fn symbol_len(&self) -> nat {
        self.constants.symbol_len()
    }

    /// Builds the modulator, with the layout that `config` determines.
    pub fn new(config: OFDMModulatorConfig) -> (r: Result<Self, LayoutError>)
        ensures
            match r {
                Ok(m) => m.wf() && m.built_from(&config),
                Err(e) => layout_error(
                    config.num_subcarriers as nat,
                    config.pilot_subcarrier_every as nat,
                    config.cyclic_prefix_length as nat,
                ) == Some(e),
            },
            r.is_ok() <==> layout_error(
                config.num_subcarriers as nat,
                config.pilot_subcarrier_every as nat,
                config.cyclic_prefix_length as nat,
            ).is_none(),
    {
        let qam_modem = QAMModem::new(config.qam_order);
        let constants = OFDMConstants::new(
            config.num_subcarriers,
            config.pilot_subcarrier_every,
            config.cyclic_prefix_length,
            config.qam_order,
            qam_modem.bits_per_symbol(),
        );
        match constants {
            Ok(constants) => Ok(OFDMModulator { qam_modem, constants }),
            Err(e) => Err(e),
        }
    }

    /// Samples in one symbol: `2 * num_subcarriers + cyclic_prefix_length`.
    pub fn get_symbol_length(&self) -> (r: usize)
        requires
            self.wf(),
        ensures
            r as nat == symbol_length(
                self.constants.num_subcarriers as nat,
                self.constants.cyclic_prefix_length as nat,
            ),
    {
        self.constants.symbol_length()
    }

    /// Payload bytes that one symbol carries.
    pub fn data_byte_capacity(&self) -> (r: usize)
        requires
            self.wf(),
        ensures
            r as nat == self.constants.capacity(),
    {
        self.constants.data_byte_capacity()
    }

    /// Maps one symbol's payload onto one constellation point per data
    /// subcarrier. A payload of any other length than the capacity is
    /// refused whole.
    pub fn map_data_bytes(&self, data: &[u8]) -> (r: Result<Vec<(i32, i32)>, BufferLengthError>)
        requires
            self.wf(),
        ensures
            match r {
                Ok(points) => {
                    &&& data@.len() == self.constants.capacity()
                    &&& points@.len() == self.constants.data_len()
                    &&& forall|j: int| 0 <= j < points@.len() ==> {
                        let p = self.qam_modem.points_of(data@, self.constants.data_len())[j];
                        (#[trigger] points@[j]).0 as int == p.0 && points@[j].1 as int == p.1
                    }
                },
                Err(e) => data@.len() != self.constants.capacity() && e.expected as nat
                    == self.constants.capacity() && e.actual == data@.len(),
            },
    {
        let expected = self.constants.data_byte_capacity();
        if data.len() != expected {
            return Err(BufferLengthError { expected, actual: data.len() });
        }
        proof {
            self.constants.lemma_wf();
        }
        let count = self.constants.data_subcarrier_indices.len();
        assert(8 * data@.len() <= count * self.qam_modem.bps()) by (nonlinear_arith)
            requires
                data@.len() == count * self.qam_modem.bps() / 8,
        ;
        Ok(self.qam_modem.modulate(data, count))
    }

    /// The `num_subcarriers + 1` frequency bins of one symbol: `symbols` on
    /// the data subcarriers in ascending order, `pilot` on the pilots, and
    /// `zero` on the guards and the last bin.
    pub fn place_subcarriers<T: Copy>(&self, symbols: &[T], zero: T, pilot: T) -> (r: Vec<T>)
        requires
            self.wf(),
            symbols@.len() == self.constants.data_len(),
        ensures
            is_placement(
                r@,
                self.constants.num_subcarriers as nat,
                self.constants.pilot_subcarrier_every as nat,
                symbols@,
                zero,
                pilot,
            ),
    {
        proof {
            self.constants.lemma_wf();
        }
        let n = self.constants.num_subcarriers;
        let every = self.constants.pilot_subcarrier_every;
        let mut bins: Vec<T> = Vec::new();
        let mut i: u32 = 0;
        while i <= n
            invariant
                self.wf(),
                n == self.constants.num_subcarriers,
                every == self.constants.pilot_subcarrier_every,
                i <= n + 1,
                bins@.len() == i,
                forall|k: int| 0 <= k < i ==> #[trigger] bins@[k] == if is_pilot(n as nat, every as nat, k as nat) {
                    pilot
                } else {
                    zero
                },
            decreases n + 1 - i,
        {
            if 0 < i && i < n - 1 && i % every == 0 {
                bins.push(pilot);
            } else {
                bins.push(zero);
            }
            i = i + 1;
        }
        let indices = &self.constants.data_subcarrier_indices;
        let mut j: usize = 0;
        while j < indices.len()
            invariant
                self.wf(),
                n == self.constants.num_subcarriers,
                every == self.constants.pilot_subcarrier_every,
                indices == &self.constants.data_subcarrier_indices,
                symbols@.len() == indices@.len(),
                bins@.len() == n + 1,
                forall|jj: int| 0 <= jj < indices@.len() ==> {
                    let d = #[trigger] indices@[jj];
                    d < n && is_data(n as nat, every as nat, d as nat)
                },
                forall|a: int, b: int| 0 <= a < b < indices@.len() ==> #[trigger] indices@[a] < #[trigger] indices@[b],
                j <= indices@.len(),
                forall|jj: int| 0 <= jj < j ==> bins@[#[trigger] indices@[jj] as int] == symbols@[jj],
                forall|k: int| 0 <= k <= n && !is_data(n as nat, every as nat, k as nat) ==> #[trigger] bins@[k]
                    == if is_pilot(n as nat, every as nat, k as nat) {
                    pilot
                } else {
                    zero
                },
            decreases indices@.len() - j,
        {
            let d = indices[j] as usize;
            bins[d] = symbols[j];
            j = j + 1;
            assert forall|jj: int| 0 <= jj < j implies bins@[#[trigger] indices@[jj] as int] == symbols@[jj] by {
                if jj < j - 1 {
                    assert(indices@[jj] < indices@[j - 1]);
                }
            }
        }
        bins
    }

    /// Writes a symbol into `output`: the last `cyclic_prefix_length` samples
    /// of the `2 * num_subcarriers` block, then the block. An output buffer of
    /// any other length than one symbol is refused and left untouched.
    pub fn add_cyclic_prefix<T: Copy>(&self, block: &[T], output: &mut Vec<T>) -> (r: Result<(), BufferLengthError>)
        requires
            self.wf(),
            block@.len() == 2 * self.constants.num_subcarriers,
        ensures
            match r {
                Ok(()) => old(output)@.len() == self.symbol_len() && final(output)@ == with_cyclic_prefix(
                    block@,
                    self.constants.cyclic_prefix_length as nat,
                ),
                Err(e) => old(output)@.len() != self.symbol_len() && final(output)@ == old(output)@
                    && e.expected as nat == self.symbol_len() && e.actual == old(output)@.len(),
            },
    {
        let expected = self.get_symbol_length();
        if output.len() != expected {
            return Err(BufferLengthError { expected, actual: output.len() });
        }
        let cp = self.constants.cyclic_prefix_length as usize;
        let len = block.len();
        let ghost target = with_cyclic_prefix(block@, cp as nat);
        let mut i: usize = 0;
        while i < expected
            invariant
                expected == len + cp,
                len == block@.len(),
                cp < len,
                target == with_cyclic_prefix(block@, cp as nat),
                output@.len() == expected,
                i <= expected,
                forall|k: int| 0 <= k < i ==> #[trigger] output@[k] == target[k],
            decreases expected - i,
        {
            let v = if i < cp {
                block[len - cp + i]
            } else {
                block[i - cp]
            };
            output[i] = v;
            i = i + 1;
        }
        assert(output@ =~= target);
        Ok(())
    }
}

} // verus!
