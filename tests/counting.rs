use simd::lanes::{movemask_epi8, popcount, LaneVector};
use simd::scalar::naive_count;
use simd::vector::{simd_count, CountError};

fn sample_text(len: usize) -> Vec<u8> {
    let mut out = Vec::new();
    let mut state: u32 = 12345;
    for _ in 0..len {
        state = state.wrapping_mul(1103515245).wrapping_add(12345);
        let pick = (state >> 16) % 6;
        out.push(match pick {
            0 => b',',
            1 => b'a',
            2 => b'\n',
            3 => 0xFF,
            4 => 0x00,
            _ => (state >> 8) as u8,
        });
    }
    out
}

#[test]
fn counters_agree_on_every_target() {
    for len in [0usize, 16, 32, 48, 160, 1024] {
        let buf = sample_text(len);
        for target in 0..=255u8 {
            let expected = buf.iter().filter(|b| **b == target).count();
            assert_eq!(naive_count(&buf, target), expected);
            assert_eq!(simd_count(&buf, target), Ok(expected));
        }
    }
}

#[test]
fn empty_buffer_counts_zero() {
    let buf: Vec<u8> = Vec::new();
    for target in [0u8, b',', 0x7F, 0x80, 0xFF] {
        assert_eq!(naive_count(&buf, target), 0);
        assert_eq!(simd_count(&buf, target), Ok(0));
    }
}

#[test]
fn all_match_counts_every_byte() {
    let buf = vec![0x41u8; 32];
    assert_eq!(naive_count(&buf, 0x41), 32);
    assert_eq!(simd_count(&buf, 0x41), Ok(32));
}

#[test]
fn no_match_counts_zero() {
    let buf = vec![0x00u8; 16];
    assert_eq!(naive_count(&buf, 0xFF), 0);
    assert_eq!(simd_count(&buf, 0xFF), Ok(0));
}

#[test]
fn length_seventeen_is_rejected() {
    let buf = vec![b','; 17];
    assert_eq!(
        simd_count(&buf, b','),
        Err(CountError::PreconditionViolation { len: 17 })
    );
    assert_eq!(naive_count(&buf, b','), 17);
}

#[test]
fn every_partial_chunk_length_is_rejected() {
    for len in 1..64usize {
        let buf = vec![b','; len];
        let got = simd_count(&buf, b',');
        if len % 16 == 0 {
            assert_eq!(got, Ok(len));
        } else {
            assert_eq!(got, Err(CountError::PreconditionViolation { len }));
        }
    }
}

#[test]
fn match_straddling_chunk_boundary() {
    let mut buf = vec![b'x'; 32];
    buf[15] = b',';
    buf[16] = b',';
    assert_eq!(naive_count(&buf, b','), 2);
    assert_eq!(simd_count(&buf, b','), Ok(2));
}

#[test]
fn mask_bits_follow_lane_indices() {
    let mut lanes = [0x00u8; 16];
    for i in [0usize, 7, 8, 15] {
        lanes[i] = 0xFF;
    }
    let v = LaneVector { lanes };
    assert_eq!(movemask_epi8(&v), 0b1000_0001_1000_0001);
}

#[test]
fn mask_of_single_lanes() {
    for i in 0..16usize {
        let mut lanes = [0x00u8; 16];
        lanes[i] = 0xFF;
        assert_eq!(movemask_epi8(&LaneVector { lanes }), 1u16 << i);
    }
    assert_eq!(movemask_epi8(&LaneVector { lanes: [0xFF; 16] }), 0xFFFF);
    assert_eq!(movemask_epi8(&LaneVector { lanes: [0x00; 16] }), 0);
}

#[test]
fn mask_reads_only_the_top_bit() {
    let mut lanes = [0x7Fu8; 16];
    lanes[3] = 0x80;
    lanes[12] = 0x81;
    assert_eq!(movemask_epi8(&LaneVector { lanes }), (1 << 3) | (1 << 12));
}

#[test]
fn popcount_values() {
    assert_eq!(popcount(0), 0);
    assert_eq!(popcount(1), 1);
    assert_eq!(popcount(0b1000_0001_1000_0001), 4);
    assert_eq!(popcount(0xFFFF), 16);
    assert_eq!(popcount(0x8000), 1);
    assert_eq!(popcount(0x0F0F), 8);
}

#[test]
fn broadcast_fills_every_lane() {
    let v = LaneVector::broadcast(0x2C);
    assert_eq!(v.lanes, [0x2C; 16]);
}

#[test]
fn load_takes_sixteen_bytes_from_start() {
    let buf: Vec<u8> = (0..40u8).collect();
    let v = LaneVector::load(&buf, 20);
    let expected: Vec<u8> = (20..36u8).collect();
    assert_eq!(v.lanes.to_vec(), expected);
}

#[test]
fn compare_marks_equal_lanes() {
    let mut lanes = [b'a'; 16];
    lanes[2] = b',';
    lanes[9] = b',';
    let v = LaneVector { lanes };
    let eq = v.compare_eq(&LaneVector::broadcast(b','));
    let mut expected = [0x00u8; 16];
    expected[2] = 0xFF;
    expected[9] = 0xFF;
    assert_eq!(eq.lanes, expected);
    assert_eq!(movemask_epi8(&eq), (1 << 2) | (1 << 9));
}

#[test]
fn naive_counts_any_length() {
    let buf = b"a,b,,c,".to_vec();
    assert_eq!(naive_count(&buf, b','), 4);
    assert_eq!(naive_count(&buf, b'a'), 1);
    assert_eq!(naive_count(&buf, b'z'), 0);
}

#[test]
fn commas_in_csv_text() {
    let text = b"id,name,score\n1,ada,9\n2,bob,7\n3,cy,";
    assert_eq!(text.len(), 35);
    let mut buf = text.to_vec();
    buf.truncate(32);
    assert_eq!(naive_count(&buf, b','), 7);
    assert_eq!(simd_count(&buf, b','), Ok(7));
}
