use realfft::num_complex::Complex32;
use realfft::RealFftPlanner;
use software_modem::ofdm::constants::{BufferLengthError, LayoutError, OFDMConstants};
use software_modem::ofdm::demodulator::{OFDMDemodulator, OFDMDemodulatorConfig};
use software_modem::ofdm::modulator::{OFDMModulator, OFDMModulatorConfig};
use software_modem::qam::{pack_bytes, unpack_symbols, QAMModem, QAMOrder};

fn configs(n: u32, cp: u32, every: u32, order: QAMOrder) -> (OFDMModulatorConfig, OFDMDemodulatorConfig) {
    (
        OFDMModulatorConfig {
            num_subcarriers: n,
            cyclic_prefix_length: cp,
            pilot_subcarrier_every: every,
            qam_order: order,
        },
        OFDMDemodulatorConfig {
            num_subcarriers: n,
            cyclic_prefix_length: cp,
            pilot_subcarrier_every: every,
            qam_order: order,
        },
    )
}

fn pair(n: u32, cp: u32, every: u32, order: QAMOrder) -> (OFDMModulator, OFDMDemodulator) {
    let (mc, dc) = configs(n, cp, every, order);
    (OFDMModulator::new(mc).unwrap(), OFDMDemodulator::new(dc).unwrap())
}

/// Runs the integer path: payload to bins, bins to grid positions, positions to bytes.
fn integer_round_trip(m: &OFDMModulator, d: &OFDMDemodulator, payload: &[u8]) -> Vec<u8> {
    let points = m.map_data_bytes(payload).unwrap();
    let bins = m.place_subcarriers(&points, (0, 0), (1, 0));
    assert_eq!(bins.len(), m.constants.num_subcarriers as usize + 1);
    let received = d.extract_data_subcarriers(&bins);
    assert_eq!(received, points);
    let side = d.qam_modem.side_length() as i64;
    let positions: Vec<(i64, i64)> = received
        .iter()
        .map(|&(a, b)| ((a as i64 + side - 1) / 2, (b as i64 + side - 1) / 2))
        .collect();
    d.demodulate_grid_positions(&positions)
}

/// Runs the whole symbol through a real inverse and forward transform.
fn float_round_trip(m: &OFDMModulator, d: &OFDMDemodulator, payload: &[u8]) -> Vec<u8> {
    let n = m.constants.num_subcarriers as usize;
    let side = m.qam_modem.side_length() as f32;
    let scale = 3.0 / ((side - 1.0) * std::f32::consts::SQRT_2);
    let points = m.map_data_bytes(payload).unwrap();
    let symbols: Vec<Complex32> = points
        .iter()
        .map(|&(a, b)| Complex32::new(a as f32 * scale, b as f32 * scale))
        .collect();
    let mut bins = m.place_subcarriers(&symbols, Complex32::new(0.0, 0.0), Complex32::new(3.0, 0.0));
    let mut planner = RealFftPlanner::<f32>::new();
    let inverse = planner.plan_fft_inverse(2 * n);
    let mut block = inverse.make_output_vec();
    inverse.process(&mut bins, &mut block).unwrap();
    let mut samples = vec![0.0f32; m.get_symbol_length()];
    m.add_cyclic_prefix(&block, &mut samples).unwrap();

    let mut received = d.remove_cyclic_prefix(&samples).unwrap();
    let forward = planner.plan_fft_forward(2 * n);
    let mut spectrum = forward.make_output_vec();
    forward.process(&mut received, &mut spectrum).unwrap();
    let max = spectrum.iter().map(|c| c.norm()).fold(0.0, f32::max);
    if max > 0.0 {
        for value in spectrum.iter_mut() {
            *value /= max / 3.0;
        }
    }
    let data = d.extract_data_subcarriers(&spectrum);
    let positions: Vec<(i64, i64)> = data
        .iter()
        .map(|c| {
            (
                ((c.re / scale + side - 1.0) / 2.0).round() as i64,
                ((c.im / scale + side - 1.0) / 2.0).round() as i64,
            )
        })
        .collect();
    d.demodulate_grid_positions(&positions)
}

#[test]
fn hello_ofdm_integer_round_trip() {
    let (m, d) = pair(64, 4, 4, QAMOrder::QAM16);
    assert_eq!(m.data_byte_capacity(), 23);
    let mut payload = vec![0u8; m.data_byte_capacity()];
    payload[..12].copy_from_slice(b"Hello, OFDM!");
    let out = integer_round_trip(&m, &d, &payload);
    assert_eq!(out.len(), 24);
    assert_eq!(out.len(), d.output_byte_length());
    assert_eq!(&out[..23], &payload[..]);
    assert_eq!(out[23], 0);
    let mut trimmed = out.clone();
    while trimmed.last() == Some(&0) {
        trimmed.pop();
    }
    assert_eq!(trimmed, b"Hello, OFDM!".to_vec());
}

#[test]
fn hello_ofdm_float_round_trip() {
    let (m, d) = pair(64, 4, 4, QAMOrder::QAM16);
    let mut payload = vec![0u8; m.data_byte_capacity()];
    payload[..12].copy_from_slice(b"Hello, OFDM!");
    let out = float_round_trip(&m, &d, &payload);
    assert_eq!(&out[..23], &payload[..]);
    assert_eq!(out[23], 0);
}

#[test]
fn round_trip_every_order() {
    for order in [QAMOrder::QAM4, QAMOrder::QAM16, QAMOrder::QAM64] {
        let (m, d) = pair(32, 8, 3, order);
        let payload: Vec<u8> = (0..m.data_byte_capacity()).map(|i| (i * 37 + 11) as u8).collect();
        let out = integer_round_trip(&m, &d, &payload);
        assert_eq!(&out[..payload.len()], &payload[..]);
        assert!(out[payload.len()..].iter().all(|&b| b == 0));
        let out = float_round_trip(&m, &d, &payload);
        assert_eq!(&out[..payload.len()], &payload[..]);
    }
}

#[test]
fn round_trip_is_exact_on_whole_bytes() {
    // Data subcarriers 1, 2, 3 and 5 carry 8 bits of QPSK: exactly one byte.
    let (m, d) = pair(7, 2, 4, QAMOrder::QAM4);
    assert_eq!(m.constants.data_subcarrier_indices, vec![1, 2, 3, 5]);
    let out = integer_round_trip(&m, &d, &[0xC5]);
    assert_eq!(out, vec![0xC5]);
}

#[test]
fn symbol_lengths_agree() {
    let (m, d) = pair(64, 4, 4, QAMOrder::QAM16);
    assert_eq!(m.get_symbol_length(), 132);
    assert_eq!(d.get_symbol_length(), 132);
}

#[test]
fn layout_marks_guards_pilots_and_data() {
    let c = OFDMConstants::new(8, 4, 0, QAMOrder::QAM16, 4).unwrap();
    assert_eq!(c.data_subcarrier_indices, vec![1, 2, 3, 5, 6]);
    assert_eq!(c.num_pilot_subcarriers, 1);
    assert_eq!(c.symbol_length(), 16);
    let c = OFDMConstants::new(64, 4, 4, QAMOrder::QAM16, 4).unwrap();
    assert_eq!(c.data_subcarrier_indices.len(), 47);
    assert_eq!(c.num_pilot_subcarriers, 15);
    assert_eq!(c.data_byte_capacity(), 23);
}

#[test]
fn layout_is_deterministic() {
    let a = OFDMConstants::new(40, 5, 3, QAMOrder::QAM64, 6).unwrap();
    let b = OFDMConstants::new(40, 5, 3, QAMOrder::QAM64, 6).unwrap();
    assert_eq!(a.data_subcarrier_indices, b.data_subcarrier_indices);
    assert_eq!(a.num_pilot_subcarriers, b.num_pilot_subcarriers);
}

#[test]
fn layout_errors() {
    assert_eq!(OFDMConstants::new(2, 4, 0, QAMOrder::QAM4, 2).err(), Some(LayoutError::TooFewSubcarriers));
    assert_eq!(OFDMConstants::new(8, 0, 0, QAMOrder::QAM4, 2).err(), Some(LayoutError::ZeroPilotSpacing));
    assert_eq!(OFDMConstants::new(8, 4, 16, QAMOrder::QAM4, 2).err(), Some(LayoutError::CyclicPrefixTooLong));
    assert_eq!(
        OFDMConstants::new(0x8000_0000, 4, 0, QAMOrder::QAM4, 2).err(),
        Some(LayoutError::SymbolTooLong)
    );
    let (mc, dc) = configs(8, 4, 0, QAMOrder::QAM4);
    assert!(matches!(OFDMModulator::new(mc), Err(LayoutError::ZeroPilotSpacing)));
    assert!(matches!(OFDMDemodulator::new(dc), Err(LayoutError::ZeroPilotSpacing)));
}

#[test]
fn wrong_buffer_lengths_are_refused_whole() {
    let (m, d) = pair(8, 2, 4, QAMOrder::QAM16);
    assert_eq!(d.remove_cyclic_prefix(&[0i32; 17]), Err(BufferLengthError { expected: 18, actual: 17 }));
    assert_eq!(d.remove_cyclic_prefix(&[0i32; 19]), Err(BufferLengthError { expected: 18, actual: 19 }));
    let mut output = vec![7i32; 17];
    let block: Vec<i32> = (0..16).collect();
    assert_eq!(m.add_cyclic_prefix(&block, &mut output), Err(BufferLengthError { expected: 18, actual: 17 }));
    assert_eq!(output, vec![7i32; 17]);
    assert_eq!(m.data_byte_capacity(), 2);
    assert_eq!(m.map_data_bytes(&[1, 2, 3]), Err(BufferLengthError { expected: 2, actual: 3 }));
}

#[test]
fn cyclic_prefix_framing() {
    let (m, d) = pair(4, 2, 4, QAMOrder::QAM4);
    let block: Vec<i32> = (0..8).collect();
    let mut output = vec![0i32; m.get_symbol_length()];
    m.add_cyclic_prefix(&block, &mut output).unwrap();
    assert_eq!(output, vec![6, 7, 0, 1, 2, 3, 4, 5, 6, 7]);
    assert_eq!(d.remove_cyclic_prefix(&output).unwrap(), block);
}

#[test]
fn placement_of_symbols_pilots_and_zeros() {
    let (m, _) = pair(8, 0, 4, QAMOrder::QAM4);
    let bins = m.place_subcarriers(&[10, 20, 30, 40, 50], 0, 9);
    assert_eq!(bins, vec![0, 10, 20, 30, 9, 40, 50, 0, 0]);
}

#[test]
fn packing_exact_values() {
    assert_eq!(pack_bytes(&[0xB4], 2, 4), vec![2, 3, 1, 0]);
    assert_eq!(pack_bytes(&[0xFF, 0x00, 0xAB], 6, 4), vec![63, 48, 2, 43]);
    assert_eq!(pack_bytes(&[0xF0], 4, 3), vec![15, 0, 0]);
    assert_eq!(unpack_symbols(&[2, 3, 1, 0], 2), vec![0xB4]);
    assert_eq!(unpack_symbols(&[1], 6), vec![0x04]);
    assert_eq!(unpack_symbols(&[63, 48, 2, 43], 6), vec![0xFF, 0x00, 0xAB]);
    assert_eq!(unpack_symbols(&[], 4), Vec::<u8>::new());
}

#[test]
fn constellation_points_and_decisions() {
    let q = QAMModem::new(QAMOrder::QAM16);
    assert_eq!(q.bits_per_symbol(), 4);
    assert_eq!(q.side_length(), 4);
    assert_eq!(q.symbol_point(0), (-3, -3));
    assert_eq!(q.symbol_point(15), (3, 3));
    assert_eq!(q.symbol_point(6), (-1, 1));
    assert_eq!(q.decide_symbol(1, 2), 6);
    assert_eq!(q.decide_symbol(-5, 10), 3);
    let q = QAMModem::new(QAMOrder::QAM64);
    assert_eq!(q.side_length(), 8);
    assert_eq!(q.symbol_point(63), (7, 7));
    assert_eq!(q.decide_symbol(100, -1), 56);
    assert_eq!(QAMModem::new(QAMOrder::QAM4).symbol_point(2), (1, -1));
}

#[test]
fn demodulating_silence_gives_zero_bits_at_the_lowest_level() {
    let (_, d) = pair(8, 0, 4, QAMOrder::QAM16);
    let out = d.demodulate_grid_positions(&[(0, 0); 5]);
    assert_eq!(out, vec![0, 0, 0]);
}

#[test]
fn default_configs() {
    let dc = OFDMDemodulatorConfig::default();
    assert_eq!(dc.pilot_subcarrier_every, 4);
    assert_eq!(dc.num_subcarriers, 0);
    assert_eq!(dc.qam_order, QAMOrder::QAM4);
    let mc = OFDMModulatorConfig::default();
    assert_eq!(mc.pilot_subcarrier_every, 4);
    assert_eq!(QAMOrder::default(), QAMOrder::QAM4);
}
