use rustic::chunker::{next_cut, split, ChunkerParams};
use rustic::id::Id;

fn params() -> ChunkerParams {
    ChunkerParams { min_size: 64, avg_size: 64, max_size: 1024 }
}

fn noise(len: usize, seed: u32) -> Vec<u8> {
    let mut x: u32 = 0x2545_f491 ^ seed;
    (0..len)
        .map(|_| {
            x ^= x << 13;
            x ^= x >> 17;
            x ^= x << 5;
            (x >> 11) as u8
        })
        .collect()
}

fn chunks(data: &[u8], p: &ChunkerParams) -> Vec<Vec<u8>> {
    let mut out = Vec::new();
    let mut start = 0;
    for end in split(data, p) {
        out.push(data[start..end].to_vec());
        start = end;
    }
    out
}

#[test]
fn params_are_validated() {
    assert!(params().is_valid());
    assert!(ChunkerParams::standard().is_valid());
    assert!(!ChunkerParams { min_size: 63, avg_size: 64, max_size: 1024 }.is_valid());
    assert!(!ChunkerParams { min_size: 128, avg_size: 64, max_size: 127 }.is_valid());
    assert!(!ChunkerParams { min_size: 64, avg_size: 0, max_size: 1024 }.is_valid());
    assert!(!ChunkerParams { min_size: 64, avg_size: 64, max_size: 0x4000_0001 }.is_valid());
    assert!(ChunkerParams { min_size: 64, avg_size: 1, max_size: 64 }.is_valid());
}

#[test]
fn chunks_cover_the_data_within_their_sizes() {
    let p = params();
    for (len, seed) in [(0usize, 1u32), (1, 2), (64, 3), (65, 4), (5000, 5), (40_000, 6)] {
        let data = noise(len, seed);
        let ends = split(&data, &p);
        let parts = chunks(&data, &p);
        assert_eq!(parts.concat(), data);
        assert_eq!(ends.last().copied().unwrap_or(0), len);
        let mut start = 0;
        for (i, end) in ends.iter().enumerate() {
            assert!(*end > start);
            assert!(end - start <= p.max_size);
            if i + 1 < ends.len() {
                assert!(end - start >= p.min_size);
            }
            start = *end;
        }
    }
}

#[test]
fn short_data_is_one_chunk() {
    let p = params();
    assert!(split(b"", &p).is_empty());
    assert_eq!(split(&noise(1, 7), &p), vec![1]);
    assert_eq!(split(&noise(64, 8), &p), vec![64]);
    assert_eq!(next_cut(&noise(64, 8), 0, &p), 64);
}

#[test]
fn a_chunk_ends_at_its_maximum_size() {
    let p = ChunkerParams { min_size: 64, avg_size: u32::MAX, max_size: 100 };
    let zeros = vec![0u8; 350];
    assert_eq!(split(&zeros, &p), vec![100, 200, 300, 350]);
    let fixed = ChunkerParams { min_size: 64, avg_size: 1, max_size: 64 };
    assert_eq!(split(&noise(200, 9), &fixed), vec![64, 128, 192, 200]);
    let eager = ChunkerParams { min_size: 64, avg_size: 1, max_size: 1000 };
    assert_eq!(split(&noise(200, 9), &eager), vec![64, 128, 192, 200]);
    assert_eq!(split(&noise(192, 9), &eager), vec![64, 128, 192]);
}

#[test]
fn chunk_sizes_follow_the_average() {
    let p = ChunkerParams { min_size: 64, avg_size: 256, max_size: 8192 };
    let data = noise(400_000, 10);
    let n = split(&data, &p).len();
    let mean = data.len() / n;
    assert!(mean > 64 + 128 && mean < 64 + 512, "mean chunk size {}", mean);
}

#[test]
fn chunking_is_restartable() {
    let p = params();
    let data = noise(10_000, 11);
    let ends = split(&data, &p);
    let third = ends[2];
    let rest = split(&data[third..], &p);
    let shifted: Vec<usize> = rest.iter().map(|e| e + third).collect();
    assert_eq!(&ends[3..], &shifted[..]);
    assert_eq!(next_cut(&data, third, &p), ends[3]);
}

#[test]
fn an_insertion_changes_only_the_chunks_near_it() {
    let p = params();
    let data = noise(60_000, 12);
    let at = 30_000;
    let mut edited = data[..at].to_vec();
    edited.extend_from_slice(b"seven bytes and some more inserted text");
    edited.extend_from_slice(&data[at..]);

    let before: Vec<Id> = chunks(&data, &p).iter().map(|c| Id::of(c)).collect();
    let after: Vec<Id> = chunks(&edited, &p).iter().map(|c| Id::of(c)).collect();
    let ends = split(&data, &p);

    let untouched = ends.iter().take_while(|e| **e <= at).count();
    assert!(untouched > 100);
    assert_eq!(&before[..untouched], &after[..untouched]);

    let common_tail = before
        .iter()
        .rev()
        .zip(after.iter().rev())
        .take_while(|(a, b)| a == b)
        .count();
    assert!(common_tail > 100);
    assert!(before.len() - untouched - common_tail <= 3);
    assert!(after.len() - untouched - common_tail <= 3);
}

#[test]
fn a_deletion_changes_only_the_chunks_near_it() {
    let p = params();
    let data = noise(60_000, 13);
    let mut edited = data[..20_000].to_vec();
    edited.extend_from_slice(&data[20_100..]);
    let before: Vec<Id> = chunks(&data, &p).iter().map(|c| Id::of(c)).collect();
    let after: Vec<Id> = chunks(&edited, &p).iter().map(|c| Id::of(c)).collect();
    let head = before.iter().zip(after.iter()).take_while(|(a, b)| a == b).count();
    let tail = before.iter().rev().zip(after.iter().rev()).take_while(|(a, b)| a == b).count();
    assert!(head > 50 && tail > 100);
    assert!(before.len() - head - tail <= 4);
}
