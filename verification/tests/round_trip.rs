//! Whole tables built from sums of bell-shaped densities, driven through a
//! small carry-less range coder the way an entropy-coding pipeline would.

use quantized_pdf::quantize::CAPACITY;
use quantized_pdf::{ModelError, QuantizedPDFSet};

struct GaussianDist {
    h: f64,
    w: f64,
    m: u8,
}

impl GaussianDist {
    fn freq(&self, v: usize) -> f64 {
        let distance = v.abs_diff(self.m as usize) as f64;
        self.h * self.w * (-1.0 * self.w * self.w * distance * distance).exp()
    }
}

/// Sums the densities per symbol and over all symbols, in symbol order.
fn weigh(pdf_list: &[GaussianDist]) -> ([f64; 256], f64) {
    let mut raw = [0f64; 256];
    let mut total = 0f64;
    for x in 0..256 {
        raw[x] = pdf_list.iter().map(|p| p.freq(x)).sum::<f64>();
        total += raw[x];
    }
    (raw, total)
}

fn finalize(pdf_list: &[GaussianDist]) -> Result<QuantizedPDFSet, ModelError> {
    let (raw, total) = weigh(pdf_list);
    let mut bits = [0u64; 256];
    for x in 0..256 {
        bits[x] = raw[x].to_bits();
    }
    QuantizedPDFSet::from_weights(&bits, total.to_bits())
}

fn simple_pdfs() -> Vec<GaussianDist> {
    vec![
        GaussianDist { h: 10.0, w: 5.0, m: 128 },
        GaussianDist { h: 10.0, w: 2.0, m: 30 },
        GaussianDist { h: 2.0, w: 5.0, m: 70 },
    ]
}

fn large_pdfs() -> Vec<GaussianDist> {
    vec![
        GaussianDist { h: std::f64::MAX, w: std::f64::MIN_POSITIVE, m: 128 },
        GaussianDist { h: 10.0, w: 2.0, m: 30 },
        GaussianDist { h: 2.0, w: 5.0, m: 70 },
    ]
}

fn simple_pmodel() -> QuantizedPDFSet {
    finalize(&simple_pdfs()).unwrap()
}

fn large_pmodel() -> QuantizedPDFSet {
    finalize(&large_pdfs()).unwrap()
}

const TOP: u64 = 1 << 56;
const BOTTOM: u64 = 1 << 48;

/// The interval that both ends of the coder narrow in step.
struct RangeCoder {
    lower_bound: u64,
    range: u64,
}

impl RangeCoder {
    fn new() -> Self {
        RangeCoder { lower_bound: 0, range: u64::MAX }
    }

    fn range_par_total(&self, total_freq: u32) -> u64 {
        self.range / total_freq as u64
    }

    fn narrow(&mut self, pm: &QuantizedPDFSet, index: usize) {
        let step = self.range_par_total(pm.total_freq());
        self.lower_bound += step * pm.cum_freq(index).unwrap() as u64;
        self.range = step * pm.c_freq(index).unwrap() as u64;
    }

    /// Whether the top byte is settled, after forcing it where the range
    /// has become too small to go on.
    fn settled(&mut self) -> bool {
        if (self.lower_bound ^ (self.lower_bound + self.range)) < TOP {
            return true;
        }
        if self.range < BOTTOM {
            self.range = self.lower_bound.wrapping_neg() & (BOTTOM - 1);
            return true;
        }
        false
    }

    fn shift(&mut self) -> u8 {
        let byte = (self.lower_bound >> 56) as u8;
        self.lower_bound <<= 8;
        self.range <<= 8;
        byte
    }
}

struct Encoder {
    range_coder: RangeCoder,
    data: Vec<u8>,
}

impl Encoder {
    fn new() -> Self {
        Encoder { range_coder: RangeCoder::new(), data: Vec::new() }
    }

    fn encode(&mut self, pm: &QuantizedPDFSet, index: usize) {
        self.range_coder.narrow(pm, index);
        while self.range_coder.settled() {
            let byte = self.range_coder.shift();
            self.data.push(byte);
        }
    }

    fn finish(&mut self) {
        for _ in 0..8 {
            let byte = self.range_coder.shift();
            self.data.push(byte);
        }
    }

    fn data(&self) -> &Vec<u8> {
        &self.data
    }
}

struct Decoder {
    range_coder: RangeCoder,
    buffer: Vec<u8>,
    position: usize,
    data: u64,
}

impl Decoder {
    fn new() -> Self {
        Decoder { range_coder: RangeCoder::new(), buffer: Vec::new(), position: 0, data: 0 }
    }

    fn set_data(&mut self, data: Vec<u8>) {
        self.buffer = data;
    }

    fn next_byte(&mut self) {
        let byte = self.buffer.get(self.position).copied().unwrap_or(0);
        self.position += 1;
        self.data = (self.data << 8) | byte as u64;
    }

    fn decode_start(&mut self) {
        for _ in 0..8 {
            self.next_byte();
        }
    }

    fn decode_one_alphabet(&mut self, pm: &QuantizedPDFSet) -> usize {
        let step = self.range_coder.range_par_total(pm.total_freq());
        let index = pm.find_index(self.data, self.range_coder.lower_bound, step).unwrap();
        self.range_coder.narrow(pm, index);
        while self.range_coder.settled() {
            self.range_coder.shift();
            self.next_byte();
        }
        index
    }
}

fn round_trip(pm: &QuantizedPDFSet, symbols: &[usize]) -> Vec<usize> {
    let mut encoder = Encoder::new();
    for i in symbols {
        encoder.encode(pm, *i);
    }
    encoder.finish();
    let data = encoder.data().clone();
    let mut decoder = Decoder::new();
    decoder.set_data(data);
    decoder.decode_start();
    let mut decoded = Vec::new();
    for _ in 0..symbols.len() {
        decoded.push(decoder.decode_one_alphabet(pm));
    }
    decoded
}

/// Every invariant of a frozen table, checked entry by entry.
fn assert_table_invariants(pm: &QuantizedPDFSet) {
    let mut sum: u64 = 0;
    assert_eq!(pm.cum_freq(0), Ok(0));
    for i in 0..256 {
        let count = pm.c_freq(i).unwrap();
        assert!(count >= 1);
        assert_eq!(pm.cum_freq(i).unwrap() as u64, sum);
        sum += count as u64;
    }
    assert_eq!(sum, pm.total_freq() as u64);
    assert!(sum <= u32::MAX as u64);
    assert_eq!(pm.counts().len(), 256);
}

#[test]
fn it_works() {
    let ansewr = vec![34, 45, 128, 255, 0];
    let pm = simple_pmodel();
    let mut encoder = Encoder::new();
    for i in &ansewr {
        encoder.encode(&pm, *i);
    }
    encoder.finish();
    let data = encoder.data().clone();
    let mut decoder = Decoder::new();
    decoder.set_data(data);
    decoder.decode_start();
    let mut decoded = Vec::new();
    for _ in 0..ansewr.len() {
        decoded.push(decoder.decode_one_alphabet(&pm));
    }
    assert_eq!(ansewr, decoded);
    println!("{:?}", pm);
}

#[test]
fn large_pdf() {
    let ansewr = vec![34, 45, 128, 255, 0];
    let pm = large_pmodel();
    let mut encoder = Encoder::new();
    for i in &ansewr {
        encoder.encode(&pm, *i);
    }
    encoder.finish();
    let data = encoder.data().clone();
    let mut decoder = Decoder::new();
    decoder.set_data(data);
    decoder.decode_start();
    let mut decoded = Vec::new();
    for _ in 0..ansewr.len() {
        decoded.push(decoder.decode_one_alphabet(&pm));
    }
    assert_eq!(ansewr, decoded);
}

#[test]
fn use_full_range() {
    let pm = large_pmodel();
    assert!((std::u32::MAX as f64)
        .mul_add(-0.9999999, pm.total_freq() as f64)
        .is_sign_positive());
}

#[test]
fn use_full_range2() {
    let pm = simple_pmodel();
    assert!((std::u32::MAX as f64)
        .mul_add(-0.9999999, pm.total_freq() as f64)
        .is_sign_positive());
}

#[test]
fn simple_model_keeps_every_invariant() {
    assert_table_invariants(&simple_pmodel());
}

#[test]
fn large_model_keeps_every_invariant() {
    assert_table_invariants(&large_pmodel());
}

#[test]
fn every_symbol_survives_a_round_trip() {
    let symbols: Vec<usize> = (0..256).chain((0..256).rev()).collect();
    assert_eq!(round_trip(&simple_pmodel(), &symbols), symbols);
    assert_eq!(round_trip(&large_pmodel(), &symbols), symbols);
}

#[test]
fn peaks_take_the_large_counts() {
    let pm = simple_pmodel();
    let at_peak = pm.c_freq(128).unwrap();
    assert!(at_peak > pm.c_freq(30).unwrap());
    assert!(pm.c_freq(30).unwrap() > pm.c_freq(70).unwrap());
    assert_eq!(pm.c_freq(255), Ok(1));
    assert_eq!(pm.c_freq(0), Ok(1));
}

#[test]
fn counts_match_the_rounded_down_shares() {
    // The exact share differs from the same share taken in floating point by
    // less than one unit, so the two floors are at most one apart.
    for pdf_list in [simple_pdfs(), large_pdfs()] {
        let (raw, total) = weigh(&pdf_list);
        let pm = finalize(&pdf_list).unwrap();
        for x in 0..256 {
            let approximate = (CAPACITY as f64 * (raw[x] / total)) as u32 as i64 + 1;
            let exact = pm.c_freq(x).unwrap() as i64;
            assert!((exact - approximate).abs() <= 1, "symbol {}", x);
        }
    }
}

#[test]
fn zero_densities_are_degenerate() {
    let flat = vec![
        GaussianDist { h: 0.0, w: 5.0, m: 128 },
        GaussianDist { h: 0.0, w: 2.0, m: 30 },
    ];
    assert_eq!(finalize(&flat).err(), Some(ModelError::DegenerateDistribution));
    assert_eq!(finalize(&[]).err(), Some(ModelError::DegenerateDistribution));
}

#[test]
fn overflowing_density_is_invalid() {
    let wild = vec![
        GaussianDist { h: std::f64::MAX, w: 4.0, m: 128 },
        GaussianDist { h: 10.0, w: 2.0, m: 30 },
    ];
    assert_eq!(finalize(&wild).err(), Some(ModelError::InvalidDensity));
}

#[test]
fn lookup_inverts_every_interval() {
    let pm = simple_pmodel();
    for i in 0..256 {
        let start = pm.cum_freq(i).unwrap() as u64;
        let count = pm.c_freq(i).unwrap() as u64;
        assert_eq!(pm.locate(start), Ok(i));
        assert_eq!(pm.locate(start + count - 1), Ok(i));
        assert_eq!(pm.locate(start + count / 2), Ok(i));
    }
    let total = pm.total_freq() as u64;
    assert_eq!(pm.locate(total - 1), Ok(255));
    assert_eq!(pm.locate(total), Err(ModelError::ProtocolViolation));
    assert_eq!(pm.locate(u64::MAX), Err(ModelError::ProtocolViolation));
}
