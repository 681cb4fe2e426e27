//! Chunks whose layers were written by hand or damaged.

use std::io::Cursor;

use copc::error::{Error, Fault};
use copc::laszip::decode_chunk;
use copc::laz_out::{compress_standalone_chunk, laszip_payload};
use laz::compressors::{IntegerCompressor, IntegerCompressorBuilder};
use laz::encoders::ArithmeticEncoder;
use laz::models::{ArithmeticModel, ArithmeticModelBuilder};

type Layer = ArithmeticEncoder<Cursor<Vec<u8>>>;

fn layer() -> Layer {
    ArithmeticEncoder::new(Cursor::new(Vec::new()))
}

fn bytes_of(mut layer: Layer) -> Vec<u8> {
    layer.done().unwrap();
    layer.into_inner().into_inner()
}

fn table(symbols: u32) -> ArithmeticModel {
    ArithmeticModelBuilder::new(symbols).build()
}

fn differences(contexts: u32) -> IntegerCompressor {
    IntegerCompressorBuilder::new()
        .bits(32)
        .contexts(contexts)
        .build_initialized()
}

/// A chunk of format 6 whose first record has this GPS time.
fn chunk_of(time: u64, count: u32, places: &[u8], heights: &[u8], times: &[u8]) -> Vec<u8> {
    let mut chunk = vec![0u8; 30];
    chunk[22..30].copy_from_slice(&time.to_le_bytes());
    chunk.extend_from_slice(&count.to_le_bytes());
    for len in [places.len(), heights.len(), 0, 0, 0, 0, 0, 0, times.len()] {
        chunk.extend_from_slice(&(len as u32).to_le_bytes());
    }
    for layer in [places, heights, times] {
        chunk.extend_from_slice(layer);
    }
    chunk
}

/// The layer of places for records that stay at their place, and whose time changes.
fn moving(count: u32) -> Vec<u8> {
    let mut out = layer();
    let (mut first, mut later) = (table(128), table(128));
    let (mut x, mut y) = (differences(2), differences(22));
    for i in 0..count {
        let changed = if i == 0 { &mut first } else { &mut later };
        out.encode_symbol(changed, 16).unwrap();
        x.compress(&mut out, 0, 0, 0).unwrap();
        y.compress(&mut out, 0, 0, 0).unwrap();
    }
    bytes_of(out)
}

fn times_of(records: &[u8]) -> Vec<u64> {
    records
        .chunks(30)
        .map(|record| u64::from_le_bytes(record[22..30].try_into().unwrap()))
        .collect()
}

fn refused(chunk: &[u8], count: usize) {
    let payload = laszip_payload(6, 0).unwrap();
    assert!(matches!(
        decode_chunk(&payload, chunk, count),
        Err(Error::InvalidData(Fault::DamagedLayer))
    ));
}

#[test]
fn endless_changes_of_the_sequence_are_refused() {
    let payload = laszip_payload(6, 0).unwrap();
    let base = 250_000_000.0f64.to_bits();
    for changes in [0, 1, 4, 5, 1_000_000] {
        let mut out = layer();
        let mut kinds = table(5);
        for _ in 0..changes {
            out.encode_symbol(&mut kinds, 2).unwrap();
        }
        out.encode_symbol(&mut kinds, 0).unwrap();
        differences(9).compress(&mut out, 0, 7, 0).unwrap();
        let chunk = chunk_of(base, 2, &moving(1), &[], &bytes_of(out));
        if changes <= 4 {
            // The other sequences start at zero.
            let start = if changes % 4 == 0 { base } else { 0 };
            let records = decode_chunk(&payload, &chunk, 2).unwrap();
            assert_eq!(vec![base, start + 7], times_of(&records));
        } else {
            assert!(chunk.len() < 400);
            refused(&chunk, 2);
        }
    }
}

#[test]
fn times_out_of_their_range_are_refused() {
    let payload = laszip_payload(6, 0).unwrap();
    for (start, step, fits) in [
        (i64::MAX - 10, 10, true),
        (i64::MAX - 10, 11, false),
        (i64::MIN + 10, -10, true),
        (i64::MIN + 10, -11, false),
    ] {
        let mut out = layer();
        out.encode_symbol(&mut table(5), 0).unwrap();
        differences(9).compress(&mut out, 0, step, 0).unwrap();
        let chunk = chunk_of(start as u64, 2, &moving(1), &[], &bytes_of(out));
        if fits {
            let records = decode_chunk(&payload, &chunk, 2).unwrap();
            assert_eq!(
                vec![start as u64, (start + i64::from(step)) as u64],
                times_of(&records)
            );
        } else {
            refused(&chunk, 2);
        }
    }
}

#[test]
fn steps_that_cannot_be_multiplied_are_refused() {
    let payload = laszip_payload(6, 0).unwrap();
    let base = 250_000_000.0f64.to_bits();
    for (step, fits) in [
        (4_294_967, true),
        (4_294_968, false),
        (-4_294_967, true),
        (-4_294_968, false),
    ] {
        let mut out = layer();
        let mut times = differences(9);
        out.encode_symbol(&mut table(5), 0).unwrap();
        times.compress(&mut out, 0, step, 0).unwrap();
        out.encode_symbol(&mut table(515), 500).unwrap();
        times.compress(&mut out, 0, 3, 4).unwrap();
        let chunk = chunk_of(base, 3, &moving(2), &[], &bytes_of(out));
        if fits {
            let records = decode_chunk(&payload, &chunk, 3).unwrap();
            let second = base.wrapping_add_signed(i64::from(step));
            let third = second.wrapping_add_signed(500 * i64::from(step) + 3);
            assert_eq!(vec![base, second, third], times_of(&records));
        } else {
            refused(&chunk, 3);
        }
    }
}

#[test]
fn differences_out_of_their_range_are_refused() {
    let payload = laszip_payload(6, 0).unwrap();
    for (low, fits) in [(0x7F_FFFE, true), (0x7F_FFFF, false)] {
        let mut out = layer();
        out.encode_symbol(&mut table(128), 0).unwrap();
        // The largest size, and the last place but one or the last of its values.
        out.encode_symbol(&mut table(33), 31).unwrap();
        out.encode_symbol(&mut table(256), 255).unwrap();
        out.write_bits(23, low).unwrap();
        differences(22).compress(&mut out, 0, 0, 20).unwrap();
        let chunk = chunk_of(0, 2, &bytes_of(out), &[], &[]);
        if fits {
            let records = decode_chunk(&payload, &chunk, 2).unwrap();
            assert_eq!(i32::MAX.to_le_bytes(), records[30..34]);
        } else {
            refused(&chunk, 2);
        }
    }
}

#[test]
fn waveforms_are_refused() {
    let mut payload = laszip_payload(6, 29).unwrap();
    // The item of extra bytes becomes one of waveforms.
    payload[40] = 13;
    let chunk = vec![0u8; 59 + 4 + 10 * 4];
    assert!(matches!(
        decode_chunk(&payload, &chunk, 2),
        Err(Error::Unsupported(Fault::WaveformItem))
    ));
    assert_eq!(chunk[..59], decode_chunk(&payload, &chunk, 1).unwrap());
}

/// Whatever is damaged, decoding comes to an end with records or an error.
#[test]
fn damaged_chunks_do_no_harm() {
    let payload = laszip_payload(6, 0).unwrap();
    let mut seed = 11u64;
    let mut next = || {
        seed = seed.wrapping_mul(6_364_136_223_846_793_005).wrapping_add(1_442_695_040_888_963_407);
        seed >> 16
    };
    let base = 250_000_000.0f64.to_bits();
    let mut raw = Vec::new();
    let mut time = base;
    for _ in 0..200 {
        let mut record = vec![0u8; 30];
        for byte in &mut record[..22] {
            *byte = next() as u8;
        }
        time = match next() % 4 {
            0 => time + next() % 1_000,
            1 => time + 1_000_000 + next() % 1_000,
            2 => time + 600_000_000,
            _ => base + (next() % 16) * 0x10_0000_0000,
        };
        record[22..30].copy_from_slice(&time.to_le_bytes());
        raw.extend_from_slice(&record);
    }
    let chunk = compress_standalone_chunk(6, 0, &raw).unwrap();
    assert_eq!(raw, decode_chunk(&payload, &chunk, 200).unwrap());
    let (mut whole, mut damaged, mut short) = (0, 0, 0);
    for _ in 0..300 {
        let mut chunk = chunk.clone();
        for _ in 0..1 + next() % 3 {
            let at = 70 + next() as usize % (chunk.len() - 70);
            chunk[at] = next() as u8;
        }
        match decode_chunk(&payload, &chunk, 200) {
            Ok(_) => whole += 1,
            Err(Error::InvalidData(_)) => damaged += 1,
            Err(_) => short += 1,
        }
    }
    assert!(whole > 0 && damaged > 0, "{whole} {damaged} {short}");
}
