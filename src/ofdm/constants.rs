use vstd::prelude::*;

use crate::qam::QAMOrder;

verus! {

/// Index `i` of `n` subcarriers is a guard: the first or the last.
pub open spec fn is_guard(n: nat, i: nat) -> bool {
    i == 0 || i == n - 1
}

/// Index `i` of `n` subcarriers carries a pilot: it is no guard and a
/// multiple of `every`.
pub open spec fn is_pilot(n: nat, every: nat, i: nat) -> bool {
    0 < i < n - 1 && i % every == 0
}

/// Index `i` of `n` subcarriers carries data: it is neither guard nor pilot.
pub open spec fn is_data(n: nat, every: nat, i: nat) -> bool {
    0 < i < n - 1 && i % every != 0
}

/// The data indices below `m`, in ascending order.
pub open spec fn data_indices_below(n: nat, every: nat, m: nat) -> Seq<u32>
    decreases m,
{
    if m == 0 {
        Seq::empty()
    } else {
        let rest = data_indices_below(n, every, (m - 1) as nat);
        if is_data(n, every, (m - 1) as nat) {
            rest.push((m - 1) as u32)
        } else {
            rest
        }
    }
}

/// The number of pilot indices below `m`.
pub open spec fn pilots_below(n: nat, every: nat, m: nat) -> nat
    decreases m,
{
    if m == 0 {
        0
    } else {
        pilots_below(n, every, (m - 1) as nat) + if is_pilot(n, every, (m - 1) as nat) {
            1nat
        } else {
            0nat
        }
    }
}

/// The data indices of `n` subcarriers with a pilot every `every`, ascending.
pub open spec fn data_indices(n: nat, every: nat) -> Seq<u32> {
    data_indices_below(n, every, n)
}

/// The number of pilots among `n` subcarriers.
pub open spec fn pilot_count(n: nat, every: nat) -> nat {
    pilots_below(n, every, n)
}

/// The values at the given indices of `bins`, in the order of `indices`.
pub open spec fn extracted<T>(bins: Seq<T>, indices: Seq<u32>) -> Seq<T> {
    Seq::new(indices.len(), |j: int| bins[indices[j] as int])
}

/// `bins` is a frequency-domain vector of `n + 1` bins that carries `symbols`
/// on the data subcarriers, in order, `pilot` on the pilots, and `zero`
/// everywhere else.
pub open spec fn is_placement<T>(bins: Seq<T>, n: nat, every: nat, symbols: Seq<T>, zero: T, pilot: T) -> bool {
    let data = data_indices(n, every);
    &&& bins.len() == n + 1
    &&& symbols.len() == data.len()
    &&& forall|j: int| 0 <= j < data.len() ==> bins[#[trigger] data[j] as int] == symbols[j]
    &&& forall|i: int|
        0 <= i <= n && !is_data(n, every, i as nat) ==> #[trigger] bins[i] == if is_pilot(n, every, i as nat) {
            pilot
        } else {
            zero
        }
}

/// A time-domain block with its last `cp` samples copied in front.
pub open spec fn with_cyclic_prefix<T>(block: Seq<T>, cp: nat) -> Seq<T> {
    block.subrange(block.len() - cp, block.len() as int) + block
}

/// Samples per symbol: a block of `2n` samples and its cyclic prefix.
pub open spec fn symbol_length(n: nat, cp: nat) -> nat {
    2 * n + cp
}

/// Below `m`, the data indices hold exactly the indices that carry data, in
/// strictly ascending order, and with the pilots and the guards they
/// account for every index.
pub proof fn lemma_data_indices_below(n: nat, every: nat, m: nat)
    requires
        m <= n <= u32::MAX,
    ensures
        forall|j: int| 0 <= j < data_indices_below(n, every, m).len() ==> {
            let d = #[trigger] data_indices_below(n, every, m)[j];
            d < m && is_data(n, every, d as nat)
        },
        forall|j: int, k: int| 0 <= j < k < data_indices_below(n, every, m).len() ==>
            #[trigger] data_indices_below(n, every, m)[j] < #[trigger] data_indices_below(n, every, m)[k],
        forall|i: nat| i < m && is_data(n, every, i) ==> #[trigger] data_indices_below(n, every, m).contains(i as u32),
        data_indices_below(n, every, m).len() + pilots_below(n, every, m) + (if m > 0 { 1nat } else { 0nat }) + (if m
            == n && n >= 2 { 1nat } else { 0nat }) == m,
    decreases m,
{
    if m > 0 {
        let prev = data_indices_below(n, every, (m - 1) as nat);
        lemma_data_indices_below(n, every, (m - 1) as nat);
        let cur = data_indices_below(n, every, m);
        assert forall|i: nat| i < m && is_data(n, every, i) implies #[trigger] cur.contains(i as u32) by {
            if i < m - 1 {
                assert(prev.contains(i as u32));
                let j = choose|j: int| 0 <= j < prev.len() && prev[j] == i as u32;
                assert(cur[j] == i as u32);
            } else {
                assert(cur[cur.len() - 1] == i as u32);
            }
        }
    }
}

/// The subcarrier layout and symbol geometry of one configuration.
pub struct OFDMConstants {
    pub num_subcarriers: u32,
    pub pilot_subcarrier_every: u32,
    pub cyclic_prefix_length: u32,
    pub qam_order: QAMOrder,
    pub bits_per_symbol: u32,
    /// The data subcarriers, ascending: symbol `j` travels on subcarrier
    /// `data_subcarrier_indices[j]`.
    pub data_subcarrier_indices: Vec<u32>,
    pub num_pilot_subcarriers: u32,
}

/// Why a configuration has no layout.
#[derive(Clone, Copy, Debug, PartialEq, Eq, Structural)]
pub enum LayoutError {
    /// Fewer than three subcarriers leave no room for the two guards.
    TooFewSubcarriers,
    /// A pilot spacing of zero.
    ZeroPilotSpacing,
    /// The cyclic prefix is not shorter than the `2 * num_subcarriers` block.
    CyclicPrefixTooLong,
    /// The symbol length `2 * num_subcarriers + cyclic_prefix_length` does not fit in `u32`.
    SymbolTooLong,
}

/// A buffer whose length is not the one the configuration asks for.
#[derive(Clone, Copy, Debug, PartialEq, Eq, Structural)]
pub struct BufferLengthError {
    pub expected: usize,
    pub actual: usize,
}

/// The error, if any, for a configuration.
pub open spec fn layout_error(n: nat, every: nat, cp: nat) -> Option<LayoutError> {
    if n < 3 {
        Some(LayoutError::TooFewSubcarriers)
    } else if every == 0 {
        Some(LayoutError::ZeroPilotSpacing)
    } else if cp >= 2 * n {
        Some(LayoutError::CyclicPrefixTooLong)
    } else if symbol_length(n, cp) > u32::MAX {
        Some(LayoutError::SymbolTooLong)
    } else {
        None
    }
}

impl OFDMConstants {
    /// The layout is the one its parameters determine.
    pub open spec fn wf(&self) -> bool {
        let n = self.num_subcarriers as nat;
        let every = self.pilot_subcarrier_every as nat;
        &&& layout_error(n, every, self.cyclic_prefix_length as nat).is_none()
        &&& self.bits_per_symbol as nat == self.qam_order.bits()
        &&& self.data_subcarrier_indices@ == data_indices(n, every)
        &&& self.num_pilot_subcarriers as nat == pilot_count(n, every)
    }

    pub open spec fn data_len(&self) -> nat {
        self.data_subcarrier_indices@.len()
    }

    /// Derives the layout: guards at the first and last index, a pilot at
    /// each other multiple of `pilot_subcarrier_every`, data everywhere else.
    pub fn new(
        num_subcarriers: u32,
        pilot_subcarrier_every: u32,
        cyclic_prefix_length: u32,
        qam_order: QAMOrder,
        bits_per_symbol: u32,
    ) -> (r: Result<Self, LayoutError>)
        requires
            bits_per_symbol as nat == qam_order.bits(),
        ensures
            match r {
                Ok(c) => {
                    &&& layout_error(num_subcarriers as nat, pilot_subcarrier_every as nat, cyclic_prefix_length as nat).is_none()
                    &&& c.wf()
                    &&& c.num_subcarriers == num_subcarriers
                    &&& c.pilot_subcarrier_every == pilot_subcarrier_every
                    &&& c.cyclic_prefix_length == cyclic_prefix_length
                    &&& c.qam_order == qam_order
                },
                Err(e) => layout_error(num_subcarriers as nat, pilot_subcarrier_every as nat, cyclic_prefix_length as nat)
                    == Some(e),
            },
    {
        let n = num_subcarriers;
        let every = pilot_subcarrier_every;
        if n < 3 {
            return Err(LayoutError::TooFewSubcarriers);
        }
        if every == 0 {
            return Err(LayoutError::ZeroPilotSpacing);
        }
        if cyclic_prefix_length as u64 >= 2 * n as u64 {
            return Err(LayoutError::CyclicPrefixTooLong);
        }
        if 2 * n as u64 + cyclic_prefix_length as u64 > u32::MAX as u64 {
            return Err(LayoutError::SymbolTooLong);
        }
        let mut data: Vec<u32> = Vec::new();
        let mut pilots: u32 = 0;
        let mut i: u32 = 0;
        while i < n
            invariant
                n >= 3,
                every >= 1,
                i <= n,
                data@ == data_indices_below(n as nat, every as nat, i as nat),
                pilots as nat == pilots_below(n as nat, every as nat, i as nat),
            decreases n - i,
        {
            proof {
                lemma_data_indices_below(n as nat, every as nat, i as nat);
            }
            if 0 < i && i < n - 1 {
                if i % every == 0 {
                    pilots = pilots + 1;
                } else {
                    data.push(i);
                }
            }
            i = i + 1;
        }
        Ok(OFDMConstants {
            num_subcarriers: n,
            pilot_subcarrier_every: every,
            cyclic_prefix_length,
            qam_order,
            bits_per_symbol,
            data_subcarrier_indices: data,
            num_pilot_subcarriers: pilots,
        })
    }

    /// Samples in one symbol: `2 * num_subcarriers + cyclic_prefix_length`.
    pub fn symbol_length(&self) -> (r: usize)
        requires
            self.wf(),
        ensures
            r as nat == symbol_length(self.num_subcarriers as nat, self.cyclic_prefix_length as nat),
    {
        (2 * self.num_subcarriers + self.cyclic_prefix_length) as usize
    }

    pub open spec fn bps(&self) -> nat {
        self.bits_per_symbol as nat
    }

    pub open spec fn symbol_len(&self) -> nat {
        symbol_length(self.num_subcarriers as nat, self.cyclic_prefix_length as nat)
    }

    /// Payload bytes that one symbol carries: the data subcarriers' bits,
    /// rounded down to whole bytes.
    pub open spec fn capacity(&self) -> nat {
        self.data_len() * self.bps() / 8
    }

    /// The facts about a well-formed layout that callers lean on.
    pub proof fn lemma_wf(&self)
        requires
            self.wf(),
        ensures
            3 <= self.num_subcarriers,
            2 * self.num_subcarriers + self.cyclic_prefix_length <= u32::MAX,
            self.data_len() + self.num_pilot_subcarriers + 2 == self.num_subcarriers,
            self.bps() == 2 || self.bps() == 4 || self.bps() == 6,
            forall|j: int| 0 <= j < self.data_len() ==> {
                let d = #[trigger] self.data_subcarrier_indices@[j];
                d < self.num_subcarriers && is_data(self.num_subcarriers as nat, self.pilot_subcarrier_every as nat, d as nat)
            },
            forall|j: int, k: int| 0 <= j < k < self.data_len() ==>
                #[trigger] self.data_subcarrier_indices@[j] < #[trigger] self.data_subcarrier_indices@[k],
    {
        let n = self.num_subcarriers as nat;
        lemma_data_indices_below(n, self.pilot_subcarrier_every as nat, n);
    }

    /// Payload bytes that one symbol carries.
    pub fn data_byte_capacity(&self) -> (r: usize)
        requires
            self.wf(),
        ensures
            r as nat == self.capacity(),
    {
        proof {
            self.lemma_wf();
        }
        let len = self.data_subcarrier_indices.len() as u64;
        let bits = len * self.bits_per_symbol as u64;
        assert(bits / 8 <= len) by (nonlinear_arith)
            requires
                bits == len * self.bits_per_symbol,
                self.bits_per_symbol <= 8,
        ;
        (bits / 8) as usize
    }
}

/// Two layouts built from the same subcarrier count and pilot spacing have
/// the same data subcarriers, in the same order, and the same pilot count.
pub proof fn lemma_layout_deterministic(a: &OFDMConstants, b: &OFDMConstants)
    requires
        a.wf(),
        b.wf(),
        a.num_subcarriers == b.num_subcarriers,
        a.pilot_subcarrier_every == b.pilot_subcarrier_every,
    ensures
        a.data_subcarrier_indices@ == b.data_subcarrier_indices@,
        a.num_pilot_subcarriers == b.num_pilot_subcarriers,
{
}

} // verus!
