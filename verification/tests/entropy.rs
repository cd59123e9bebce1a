use icer::entropy::{BitSink, BitSource, EntropyKind};

fn backend_roundtrip(kind: EntropyKind) {
    let symbols: Vec<u8> = (0..300).map(|i| ((i * 29 + 7) % 8 == 0) as u8).collect();
    let (p1n, p1d) = (1u32, 8u32);
    let mut sink = kind.make_sink();
    for &s in &symbols {
        sink.put_bit(s, p1n, p1d);
    }
    let channel = sink.finish_bits();
    let mut src = kind.make_source(&channel).unwrap();
    for (i, &s) in symbols.iter().enumerate() {
        assert_eq!(src.get_bit(p1n, p1d).unwrap(), s, "{kind:?} symbol {i}");
    }
}

#[test]
fn arithmetic_backend_roundtrip() {
    backend_roundtrip(EntropyKind::Arithmetic);
}

#[test]
fn interleaved_backend_roundtrip() {
    backend_roundtrip(EntropyKind::Interleaved);
}
