use scoc::{compress_lookup_table, write_header, HeaderProblem, ScoaError, ScoaReader};
use std::io::Write;

fn sample(n: usize) -> (Vec<u8>, Vec<u64>, Vec<u64>) {
    let mut body = vec![];
    let mut chunk_ids = vec![];
    let mut end_positions = vec![];
    for i in 0..n {
        body.extend(vec![i as u8; 100 * i]);
        chunk_ids.push((i * 100) as u64);
        end_positions.push(body.len() as u64);
    }
    (body, chunk_ids, end_positions)
}

#[test]
fn test_scoa() {
    // Writing
    let user_data = vec![123; 100];
    let buf = {
        let mut body = vec![];
        let mut chunk_ids = vec![];
        let mut end_positions = vec![];
        for i in 0..17 {
            let chunk_id = (i * 100) as u64;
            body.extend(vec![i as u8; 100 * i]);
            chunk_ids.push(chunk_id);
            end_positions.push(body.len() as u64);
        }
        let mut buf = vec![];
        write_header(
            &mut buf,
            chunk_ids.len() as u32,
            chunk_ids,
            end_positions,
            user_data.clone(),
        )
        .unwrap();
        buf.write_all(&body).unwrap();
        buf
    };

    // Reading
    let reader = ScoaReader::from_header_bytes(&buf[..1000]).unwrap();
    assert_eq!(reader.user_data(), vec![123; 100]);
    assert_eq!(reader.num_chunks(), 17);
    assert!(reader.header_length() < 200);
    assert_eq!(reader.lookup_table().chunk_ids.len(), 17);
    assert_eq!(reader.lookup_table().end_positions.len(), 17);
    let chunks = reader.bisect_range(1200, 1500).unwrap();
    assert_eq!(chunks.idx_begin(), 12);
    assert_eq!(chunks.idx_end(), 15);
    assert_eq!(chunks.body_size(), 1200 + 1300 + 1400);
    for (chunk_id, raw_chunk) in chunks.iter_chunks(&buf[chunks.body_begin()..chunks.body_end()]) {
        assert_eq!(raw_chunk.len(), chunk_id as usize);
    }

    assert!(reader.bisect_range(0, 1000).is_some());
    assert!(reader.bisect_range(1600, 1700).is_some());
    assert!(reader.bisect_range(0, 0).is_none());
    assert!(reader.bisect_range(1700, 1800).is_none());
}

fn written(n: usize, user_data: Vec<u8>) -> (Vec<u8>, Vec<u64>, Vec<u64>) {
    let (body, ids, ends) = sample(n);
    let mut buf = vec![];
    write_header(&mut buf, n as u32, ids.clone(), ends.clone(), user_data).unwrap();
    buf.extend_from_slice(&body);
    (buf, ids, ends)
}

#[test]
fn end_to_end_table_and_bodies() {
    let (buf, ids, ends) = written(17, b"meta".to_vec());
    let reader = ScoaReader::from_header_bytes(&buf).unwrap();
    assert_eq!(reader.lookup_table().chunk_ids, ids);
    assert_eq!(reader.lookup_table().end_positions, ends);
    assert_eq!(reader.user_data(), b"meta");
    let hl = reader.header_length() as usize;
    assert_eq!(
        u32::from_le_bytes([buf[4], buf[5], buf[6], buf[7]]) as usize,
        hl
    );
    assert_eq!(&buf[..4], b"SCOC");
    assert_eq!(buf[8], 1);
    assert_eq!(&buf[9..13], &17u32.to_le_bytes());
    let table = compress_lookup_table(&ids, &ends).unwrap();
    assert_eq!(&buf[13..17], &(table.len() as u32).to_le_bytes());
    assert_eq!(&buf[17..17 + table.len()], &table[..]);
    assert_eq!(&buf[17 + table.len()..hl], b"meta");
    assert_eq!(hl, 17 + table.len() + 4);

    let chunks = reader.bisect_range(1200, 1500).unwrap();
    assert_eq!(chunks.body_begin(), hl + ends[11] as usize);
    assert_eq!(chunks.body_end(), hl + ends[14] as usize);
    let pieces = chunks.iter_chunks(&buf[chunks.body_begin()..chunks.body_end()]);
    assert_eq!(pieces.len(), 3);
    for (k, (id, bytes)) in pieces.iter().enumerate() {
        let i = 12 + k;
        assert_eq!(*id, ids[i]);
        assert_eq!(bytes.len(), 100 * i);
        assert!(bytes.iter().all(|&b| b == i as u8));
    }

    // Up to one past the largest id: the last chunk is included.
    let last = reader.bisect_range(1600, 1601).unwrap();
    assert_eq!((last.idx_begin(), last.idx_end()), (16, 17));
    // Everything.
    let all = reader.bisect_range(0, u64::MAX).unwrap();
    assert_eq!((all.idx_begin(), all.idx_end()), (0, 17));
    assert_eq!(all.body_begin(), hl);
    // The first chunk is empty: its slice is empty.
    let first = reader.bisect_range(0, 1).unwrap();
    assert_eq!(first.body_size(), 0);
    let only = first.iter_chunks(&[]);
    assert_eq!(only.len(), 1);
    assert_eq!(only[0].0, 0);
    assert!(only[0].1.is_empty());
}

#[test]
fn empty_and_inverted_ranges() {
    let (buf, _, _) = written(17, vec![]);
    let reader = ScoaReader::from_header_bytes(&buf).unwrap();
    assert!(reader.bisect_range(0, 0).is_none());
    assert!(reader.bisect_range(1, 100).is_none());
    assert!(reader.bisect_range(1500, 1200).is_none());
    assert!(reader.bisect_range(1601, u64::MAX).is_none());
}

#[test]
fn equal_chunk_ids_round_trip() {
    let ids = vec![5u64, 5, 5, 9, 9];
    let ends = vec![1u64, 2, 4, 8, 16];
    let mut buf = vec![];
    write_header(&mut buf, 5, ids.clone(), ends.clone(), vec![]).unwrap();
    let reader = ScoaReader::from_header_bytes(&buf).unwrap();
    assert_eq!(reader.lookup_table().chunk_ids, ids);
    assert_eq!(reader.lookup_table().end_positions, ends);
    let c = reader.bisect_range(5, 6).unwrap();
    assert_eq!((c.idx_begin(), c.idx_end()), (0, 3));
    assert_eq!(c.body_size(), 4);
}

#[test]
fn empty_table_round_trip() {
    let mut buf = vec![];
    write_header(&mut buf, 0, vec![], vec![], b"x".to_vec()).unwrap();
    let reader = ScoaReader::from_header_bytes(&buf).unwrap();
    assert_eq!(reader.num_chunks(), 0);
    assert_eq!(reader.user_data(), b"x");
    assert_eq!(reader.header_length() as usize, buf.len());
    assert!(reader.bisect_range(0, u64::MAX).is_none());
}

#[test]
fn compressed_table_is_gzip() {
    let table = compress_lookup_table(&[0, 100, 200], &[10, 20, 30]).unwrap();
    assert_eq!(&table[..2], &[0x1f, 0x8b]);
    // Raw table: ids 0, 99, 99 and ends 10, 9, 9 as LEB128 bytes.
    assert_ne!(table, vec![0, 99, 99, 10, 9, 9]);
}

#[test]
fn wrong_magic_is_invalid_header() {
    let (mut buf, _, _) = written(3, vec![]);
    buf[0] = b'X';
    assert!(matches!(
        ScoaReader::from_header_bytes(&buf),
        Err(ScoaError::InvalidHeader(HeaderProblem::BadMagic))
    ));
    assert!(matches!(
        ScoaReader::from_header_bytes(b"SC"),
        Err(ScoaError::InvalidHeader(HeaderProblem::BadMagic))
    ));
    assert!(matches!(
        ScoaReader::from_header_bytes(&[]),
        Err(ScoaError::InvalidHeader(HeaderProblem::BadMagic))
    ));
}

#[test]
fn short_input_is_insufficient_header() {
    let (buf, _, _) = written(3, vec![1, 2, 3]);
    assert!(matches!(
        ScoaReader::from_header_bytes(&buf[..16]),
        Err(ScoaError::InsufficientHeader)
    ));
    assert!(matches!(
        ScoaReader::from_header_bytes(b"SCOC"),
        Err(ScoaError::InsufficientHeader)
    ));
    let hl = u32::from_le_bytes([buf[4], buf[5], buf[6], buf[7]]) as usize;
    assert!(matches!(
        ScoaReader::from_header_bytes(&buf[..hl - 1]),
        Err(ScoaError::InsufficientHeader)
    ));
    assert!(ScoaReader::from_header_bytes(&buf[..hl]).is_ok());
}

#[test]
fn wrong_version_is_invalid_header() {
    let (mut buf, _, _) = written(3, vec![]);
    buf[8] = 2;
    assert!(matches!(
        ScoaReader::from_header_bytes(&buf),
        Err(ScoaError::InvalidHeader(HeaderProblem::UnsupportedVersion(2)))
    ));
}

#[test]
fn table_longer_than_header_is_invalid() {
    let (mut buf, _, _) = written(3, vec![]);
    // Declare a table length beyond the declared header length.
    buf[13..17].copy_from_slice(&1000u32.to_le_bytes());
    assert!(matches!(
        ScoaReader::from_header_bytes(&buf),
        Err(ScoaError::InvalidHeader(HeaderProblem::TableOverrun))
    ));
}

#[test]
fn corrupt_table_is_decode_error() {
    let (mut buf, _, _) = written(3, vec![]);
    // Break the gzip magic of the table.
    buf[17] = 0;
    assert!(matches!(
        ScoaReader::from_header_bytes(&buf),
        Err(ScoaError::DecodeError)
    ));
    // A table that holds fewer numbers than the declared chunk count.
    let (mut buf, _, _) = written(3, vec![]);
    buf[9..13].copy_from_slice(&4u32.to_le_bytes());
    assert!(matches!(
        ScoaReader::from_header_bytes(&buf),
        Err(ScoaError::DecodeError)
    ));
}

#[test]
fn decoded_table_bytes_directly() {
    // ids 3, 5 and ends 2, 7: deltas (bias 1) 3, 1 and 2, 4.
    let r = ScoaReader::from_table_bytes(17, 2, &[3, 1, 2, 4], vec![]).unwrap();
    assert_eq!(r.lookup_table().chunk_ids, vec![3, 5]);
    assert_eq!(r.lookup_table().end_positions, vec![2, 7]);
    // A multi-byte LEB128 number: 300 = 0xAC 0x02.
    let r = ScoaReader::from_table_bytes(17, 1, &[0xAC, 0x02, 9], vec![]).unwrap();
    assert_eq!(r.lookup_table().chunk_ids, vec![300]);
    assert_eq!(r.lookup_table().end_positions, vec![9]);
    // Truncated number.
    assert!(matches!(
        ScoaReader::from_table_bytes(17, 1, &[0x80], vec![]),
        Err(ScoaError::DecodeError)
    ));
    // Eleven-byte number: more than 64 bits.
    let mut long = vec![0xFF; 9];
    long.push(0x02);
    long.push(0);
    assert!(matches!(
        ScoaReader::from_table_bytes(17, 1, &long, vec![]),
        Err(ScoaError::DecodeError)
    ));
    // End positions that do not increase.
    assert!(matches!(
        ScoaReader::from_table_bytes(17, 2, &[0, 0, 5, 0xFF, 0xFF, 0xFF, 0xFF, 0xFF, 0xFF, 0xFF, 0xFF, 0xFF, 0x01], vec![]),
        Err(ScoaError::DecodeError)
    ));
}

#[test]
fn header_prefix_and_longer_input_agree() {
    let (buf, ids, ends) = written(17, b"abc".to_vec());
    let hl = u32::from_le_bytes([buf[4], buf[5], buf[6], buf[7]]) as usize;
    let short = ScoaReader::from_header_bytes(&buf[..hl]).unwrap();
    let long = ScoaReader::from_header_bytes(&buf).unwrap();
    assert_eq!(short.num_chunks(), long.num_chunks());
    assert_eq!(short.header_length(), long.header_length());
    assert_eq!(short.user_data(), long.user_data());
    assert_eq!(short.lookup_table().chunk_ids, ids);
    assert_eq!(long.lookup_table().chunk_ids, ids);
    assert_eq!(short.lookup_table().end_positions, ends);
    assert_eq!(long.lookup_table().end_positions, ends);
}

#[test]
fn chunk_slices_cover_the_window() {
    let (buf, ids, ends) = written(17, vec![]);
    let reader = ScoaReader::from_header_bytes(&buf).unwrap();
    let hl = reader.header_length() as usize;
    let c = reader.bisect_range(300, 1001).unwrap();
    assert_eq!((c.idx_begin(), c.idx_end()), (3, 11));
    assert_eq!(c.body_begin(), hl + ends[2] as usize);
    assert_eq!(c.body_end(), hl + ends[10] as usize);
    assert_eq!(c.body_size(), (ends[10] - ends[2]) as usize);
    let window = &buf[c.body_begin()..c.body_end()];
    let pieces = c.iter_chunks(window);
    let joined: Vec<u8> = pieces.iter().flat_map(|(_, b)| b.iter().copied()).collect();
    assert_eq!(joined, window.to_vec());
    let got: Vec<u64> = pieces.iter().map(|(id, _)| *id).collect();
    assert_eq!(got, ids[3..11].to_vec());
}
