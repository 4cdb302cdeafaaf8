use ioqp::compress::Compressor;
use ioqp::compress::SimdBPandStreamVbyte;
use ioqp::compress::Uncompressed;
use ioqp::impact::Impact;
use ioqp::impact::MetaData;
use ioqp::range::Byte;

fn decode_all<C: Compressor>(meta: MetaData, data: &[u8]) -> Vec<u32> {
    let mut recovered = Impact::from_encoded_slice(meta, Byte::from_slice(data));
    let mut out = Vec::new();
    while let Some(chunk) = recovered.next_chunk::<C>(data) {
        out.extend_from_slice(&chunk);
    }
    out
}

#[test]
fn recover_small() {
    let org_impact = 123;
    let docs: Vec<u32> = vec![
        55, 101, 184, 419, 669, 812, 1067, 1181, 1261, 1428500555, 1428500722, 1428557200,
        1428557376, 1428557549, 1428557592, 1428557709, 1428557820, 1428557937, 1428558096,
        1428559010, 1428559129, 1428559322, 1428559577, 1428559578, 1428559729, 1428559870,
        1428559888, 1428559965, 1428560218, 1428560448, 1428560586, 1428560587, 1428560842,
        1428561077, 1428561121, 1428561353, 1428561354, 1428575668, 1428575779, 1428576005,
        1428576032, 1428576138, 1428576165, 1428576207, 1428576367, 1428576473, 1428576579,
        1428576704, 1428576856, 1428577030, 1428577091, 3995637692, 3995637709, 3995637774,
        3995638028, 3995638181, 3995638217, 3995638404, 3995638654, 3995638693, 3995638915,
        3995639146, 3995639367, 3995639387, 3995639545, 3995639728, 3995639948, 3995640111,
        3995640241, 3995640330, 3995640389, 3995640390, 3995640486, 3995640595, 3995640702,
        3995640738, 3995640803, 3995640846, 3995640972, 3995641111, 3995641351, 3995641487,
        3995641595, 3995641779, 3995642034, 3995642079, 3995642154, 3995642344, 3995642533,
        3995642714, 3995642931, 3995643143, 3995643284, 3995643401, 3995643556, 3995643689,
        3995643770, 3995644018, 3995644057, 3995644233, 3995644252, 3995644271, 3995644433,
        3995644650, 3995644797, 3995644952, 3995645207, 3995645353, 3995645516, 3995645752,
        3995645962, 3995646204, 3995646340, 3995646423, 3995646666, 3995646844, 4204496253,
        4204496255, 4204496472, 4204496677, 4204496828, 4204496878, 4204497115, 4204497244,
        4204497293, 4204497356, 4204497474, 4204497652,
    ];
    let (meta_data, encoded) = Impact::encode::<SimdBPandStreamVbyte>(org_impact, &docs);

    let data = &encoded[..];
    let mut recovered = Impact::from_encoded_slice(meta_data, Byte::from_slice(data));
    let mut doc_iter = docs.into_iter();
    while let Some(chunk) = recovered.next_chunk::<SimdBPandStreamVbyte>(data) {
        for num in &chunk {
            assert_eq!(Some(*num), doc_iter.next());
        }
    }
    assert_eq!(None, doc_iter.next());
}

#[test]
fn ensure_64bit_impact_metadata_size() {
    assert_eq!(std::mem::size_of::<MetaData>(), 12);
}

// A tiny deterministic generator for strictly increasing doc-id runs.
struct Lcg(u64);

impl Lcg {
    fn next(&mut self) -> u32 {
        self.0 = self.0.wrapping_mul(6364136223846793005).wrapping_add(1442695040888963407);
        (self.0 >> 33) as u32
    }
}

fn increasing_seq(rng: &mut Lcg, len: usize) -> Vec<u32> {
    let mut out = Vec::with_capacity(len);
    let mut last: u64 = 0;
    for _ in 0..len {
        let gap = (rng.next() % 1000 + 1) as u64;
        last += gap;
        if last > u32::MAX as u64 {
            break;
        }
        out.push(last as u32);
    }
    out
}

#[test]
fn roundtrip_many_lengths() {
    let lengths = [1usize, 127, 128, 129, 8193];
    let mut rng = Lcg(42);
    for round in 0..100 {
        let len = lengths[round % lengths.len()];
        let docs = increasing_seq(&mut rng, len);
        let (meta_a, enc_a) = Impact::encode::<SimdBPandStreamVbyte>(7, &docs);
        assert_eq!(meta_a.count as usize, docs.len());
        assert_eq!(meta_a.bytes as usize, enc_a.len());
        assert_eq!(decode_all::<SimdBPandStreamVbyte>(meta_a, &enc_a), docs);

        let (meta_b, enc_b) = Impact::encode::<Uncompressed>(7, &docs);
        assert_eq!(meta_b.count as usize, docs.len());
        assert_eq!(meta_b.bytes as usize, enc_b.len());
        assert_eq!(enc_b.len(), 4 * docs.len());
        assert_eq!(decode_all::<Uncompressed>(meta_b, &enc_b), docs);
    }
}

#[test]
fn encode_starts_at_zero_doc() {
    let docs: Vec<u32> = vec![0, 5, 9];
    let (meta, enc) = Impact::encode::<SimdBPandStreamVbyte>(3, &docs);
    assert_eq!(decode_all::<SimdBPandStreamVbyte>(meta, &enc), docs);
}

#[test]
fn compressor_tags_differ() {
    assert_ne!(SimdBPandStreamVbyte::tag(), Uncompressed::tag());
}

#[test]
fn large_chunks_match_small() {
    let mut rng = Lcg(7);
    let docs = increasing_seq(&mut rng, 8193 + 4096);
    let (meta, enc) = Impact::encode::<SimdBPandStreamVbyte>(2, &docs);
    let data = &enc[..];
    let mut cursor = Impact::from_encoded_slice(meta, Byte::from_slice(data));
    let mut out = Vec::new();
    while let Some(chunk) = cursor.next_large_chunk::<SimdBPandStreamVbyte>(data) {
        assert_eq!(chunk.len(), 8192);
        out.extend_from_slice(&chunk);
    }
    while let Some(chunk) = cursor.next_chunk::<SimdBPandStreamVbyte>(data) {
        out.extend_from_slice(&chunk);
    }
    assert_eq!(out, docs);
}
