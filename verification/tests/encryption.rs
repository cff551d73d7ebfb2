use th06nc_data::encrytion::{apply_key, key_gen, WriteOutcome, XorPad, XorReader, XorWriter, CHUNK};

#[test]
fn key_gen_known_values() {
    assert_eq!(
        key_gen(0),
        [193, 92, 2, 137, 236, 45, 10, 145, 103, 236, 142, 101, 161, 141, 235, 190]
    );
    assert_eq!(
        key_gen(1),
        [142, 96, 117, 76, 157, 197, 101, 111, 221, 186, 80, 240, 183, 228, 158, 119]
    );
    assert_eq!(
        key_gen(0xdead_beef),
        [75, 79, 132, 2, 201, 165, 244, 191, 252, 176, 5, 169, 81, 220, 229, 193]
    );
    assert_eq!(
        key_gen(u32::MAX),
        [240, 238, 191, 103, 35, 105, 111, 170, 104, 4, 253, 238, 35, 29, 55, 203]
    );
}

fn sample(len: usize) -> Vec<u8> {
    (0..len).map(|i| (i * 37 + 11) as u8).collect()
}

#[test]
fn apply_xors_with_repeating_key() {
    let key = key_gen(7);
    let data = sample(40);
    let mut buf = data.clone();
    let mut pad = XorPad::new(key);
    pad.apply(&mut buf);
    for i in 0..data.len() {
        assert_eq!(buf[i], data[i] ^ key[i % 16]);
    }
}

#[test]
fn apply_any_split_matches_whole() {
    let key = key_gen(99);
    let data = sample(100);
    let mut whole = data.clone();
    XorPad::new(key).apply(&mut whole);
    for cuts in [vec![0, 1, 17, 33, 100], vec![0, 15, 16, 31, 48, 100], vec![0, 0, 100, 100]] {
        let mut pieces = data.clone();
        let mut pad = XorPad::new(key);
        for w in cuts.windows(2) {
            pad.apply(&mut pieces[w[0]..w[1]]);
        }
        assert_eq!(pieces, whole);
    }
}

#[test]
fn apply_key_twice_restores() {
    let key = key_gen(12345);
    let data = sample(77);
    let mut buf = data.clone();
    apply_key(&mut buf, &key);
    assert_ne!(buf, data);
    apply_key(&mut buf, &key);
    assert_eq!(buf, data);
}

#[test]
fn apply_empty_buffer() {
    let mut buf: Vec<u8> = Vec::new();
    apply_key(&mut buf, &key_gen(1));
    assert!(buf.is_empty());
}

#[test]
fn reader_unmasks_only_what_was_read() {
    let key = key_gen(5);
    let plain = sample(30);
    let mut masked = plain.clone();
    apply_key(&mut masked, &key);
    let mut reader = XorReader::new(0u8, key);
    let mut out = Vec::new();
    let mut pos = 0;
    for n in [3usize, 0, 20, 7] {
        let mut buf = vec![0xAAu8; 25];
        buf[..n].copy_from_slice(&masked[pos..pos + n]);
        let got = reader.finish_read(&mut buf, n);
        assert_eq!(got, n);
        assert!(buf[n..].iter().all(|b| *b == 0xAA));
        out.extend_from_slice(&buf[..n]);
        pos += n;
    }
    assert_eq!(out, plain);
}

#[test]
fn reader_accessors() {
    let mut reader = XorReader::new(vec![1u8, 2], key_gen(0));
    assert_eq!(reader.get_ref(), &vec![1u8, 2]);
    reader.get_mut().push(3);
    assert_eq!(reader.into_inner(), vec![1u8, 2, 3]);
}

#[test]
fn writer_accessors() {
    let mut writer = XorWriter::new(vec![9u8], key_gen(0));
    assert_eq!(writer.get_ref(), &vec![9u8]);
    writer.get_mut().push(8);
    assert_eq!(writer.into_inner(), vec![9u8, 8]);
}

#[test]
fn writer_empty_write_offers_nothing() {
    let writer = XorWriter::new((), key_gen(3));
    assert!(writer.begin_write(&[]).is_none());
}

#[test]
fn writer_chunk_is_capped() {
    let writer = XorWriter::new((), key_gen(3));
    let data = sample(CHUNK + 10);
    let chunk = writer.begin_write(&data).unwrap();
    assert_eq!(chunk.len(), CHUNK);
    let mut expect = data[..CHUNK].to_vec();
    apply_key(&mut expect, &key_gen(3));
    assert_eq!(chunk, expect);
}

#[test]
fn writer_partial_writes_resume_the_stream() {
    let key = key_gen(42);
    let data = sample(50);
    let mut whole = data.clone();
    apply_key(&mut whole, &key);

    let mut writer = XorWriter::new((), key);
    let mut sink = Vec::new();
    let mut rest: &[u8] = &data;
    let accepted = [5usize, 0, 13, 32];
    let mut k = 0;
    while !rest.is_empty() {
        let chunk = writer.begin_write(rest).unwrap();
        let n = accepted[k].min(chunk.len());
        k += 1;
        match writer.commit_write(Some(n)) {
            WriteOutcome::Written(m) => {
                assert_eq!(m, n);
                sink.extend_from_slice(&chunk[..n]);
                rest = &rest[n..];
            }
            WriteOutcome::WriteZero => assert_eq!(n, 0),
            WriteOutcome::Failed => panic!("no failure was reported"),
        }
    }
    assert_eq!(sink, whole);
}

#[test]
fn writer_failure_keeps_the_position() {
    let key = key_gen(8);
    let data = sample(20);
    let mut writer = XorWriter::new((), key);
    let first = writer.begin_write(&data).unwrap();
    assert_eq!(writer.commit_write(None), WriteOutcome::Failed);
    let again = writer.begin_write(&data).unwrap();
    assert_eq!(first, again);
    assert_eq!(writer.commit_write(Some(0)), WriteOutcome::WriteZero);
    assert_eq!(writer.begin_write(&data).unwrap(), first);
    assert_eq!(writer.commit_write(Some(20)), WriteOutcome::Written(20));
    let next = writer.begin_write(&data).unwrap();
    let mut expect = vec![0u8; 20];
    expect.extend_from_slice(&data);
    apply_key(&mut expect, &key);
    assert_eq!(next, expect[20..].to_vec());
}

#[test]
fn writer_huge_count_wraps_the_phase() {
    let key = key_gen(8);
    let data = sample(16);
    let mut writer = XorWriter::new((), key);
    assert_eq!(writer.commit_write(Some(usize::MAX)), WriteOutcome::Written(usize::MAX));
    let chunk = writer.begin_write(&data).unwrap();
    for i in 0..16 {
        assert_eq!(chunk[i], data[i] ^ key[(15 + i) % 16]);
    }
}

#[test]
fn key_gen_distinct_keys_distinct_streams() {
    let keys = [0u32, 1, 2, 0xFFFF_FFFF, 0x8000_0000, 0xDEAD_BEEF, 12345, 54321];
    for (i, a) in keys.iter().enumerate() {
        for b in keys.iter().skip(i + 1) {
            assert_ne!(key_gen(*a)[..8], key_gen(*b)[..8]);
        }
    }
}

#[test]
fn written_stream_reads_back() {
    let key = key_gen(2024);
    let data = sample(300);
    // Write all of `data`, the wrapped writer taking odd amounts, one refusal on the way.
    let mut writer = XorWriter::new((), key);
    let mut wire = Vec::new();
    let mut rest: &[u8] = &data;
    let takes = [7usize, 0, 100, 1, 64, 500];
    let mut k = 0;
    while !rest.is_empty() {
        let chunk = writer.begin_write(rest).unwrap();
        if k == 2 {
            assert_eq!(writer.commit_write(None), WriteOutcome::Failed);
        }
        let n = takes[k % takes.len()].min(chunk.len());
        k += 1;
        if let WriteOutcome::Written(m) = writer.commit_write(Some(n)) {
            wire.extend_from_slice(&chunk[..m]);
            rest = &rest[m..];
        }
    }
    let mut whole = data.clone();
    apply_key(&mut whole, &key);
    assert_eq!(wire, whole);
    // Read it back in other pieces.
    let mut reader = XorReader::new((), key);
    let mut out = Vec::new();
    let mut pos = 0;
    for size in [3usize, 200, 0, 50, 47] {
        let mut buf = vec![0u8; 256];
        buf[..size].copy_from_slice(&wire[pos..pos + size]);
        let n = reader.finish_read(&mut buf, size);
        out.extend_from_slice(&buf[..n]);
        pos += n;
    }
    assert_eq!(out, data);
}
