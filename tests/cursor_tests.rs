use par_unzip::cursor::{resolve_seek, CursorError, CursorState, SeekOrigin};
use std::io::{Read, Seek, SeekFrom};
use std::sync::Mutex;

fn locked_read(shared: &Mutex<std::io::Cursor<Vec<u8>>>, state: &mut CursorState, n: usize) -> Vec<u8> {
    let mut file = shared.lock().unwrap();
    file.seek(SeekFrom::Start(state.position())).unwrap();
    let mut buf = vec![0u8; n];
    let got = file.read(&mut buf).unwrap();
    buf.truncate(got);
    state.advance(got).unwrap();
    buf
}

#[test]
fn new_state_starts_at_zero_without_length() {
    let s = CursorState::new();
    assert_eq!(s.position(), 0);
    assert_eq!(s.cached_length(), None);
}

#[test]
fn seek_from_start_sets_position() {
    let mut s = CursorState::new();
    assert_eq!(s.seek(SeekOrigin::Start(17)), Ok(17));
    assert_eq!(s.position(), 17);
}

#[test]
fn seek_from_end_without_length_is_refused() {
    let mut s = CursorState::new();
    s.seek(SeekOrigin::Start(5)).unwrap();
    assert!(s.needs_length(SeekOrigin::End(-1)));
    assert_eq!(s.seek(SeekOrigin::End(-1)), Err(CursorError::LengthUnknown));
    assert_eq!(s.position(), 5);
}

#[test]
fn length_is_cached_once() {
    let mut s = CursorState::new();
    assert_eq!(s.ascertain_length(100), 100);
    assert_eq!(s.ascertain_length(7), 100);
    assert_eq!(s.cached_length(), Some(100));
    assert!(!s.needs_length(SeekOrigin::End(0)));
    assert!(!s.needs_length(SeekOrigin::Current(-3)));
}

#[test]
fn seek_from_end_matches_seek_from_start() {
    let len: u64 = 50;
    for k in 0..=len {
        let mut a = CursorState::new();
        a.ascertain_length(len);
        let mut b = CursorState::new();
        let pa = a.seek(SeekOrigin::End(-(k as i64))).unwrap();
        let pb = b.seek(SeekOrigin::Start(len - k)).unwrap();
        assert_eq!(pa, pb);
        assert_eq!(pa, len - k);
    }
}

#[test]
fn seek_from_end_then_read_matches_seek_from_start_then_read() {
    let content: Vec<u8> = (0u8..40).collect();
    let shared = Mutex::new(std::io::Cursor::new(content.clone()));
    let len = content.len() as u64;
    for k in 0..=len {
        let mut a = CursorState::new();
        a.ascertain_length(len);
        a.seek(SeekOrigin::End(-(k as i64))).unwrap();
        let mut b = CursorState::new();
        b.seek(SeekOrigin::Start(len - k)).unwrap();
        assert_eq!(locked_read(&shared, &mut a, 8), locked_read(&shared, &mut b, 8));
    }
}

#[test]
fn seek_current_zero_keeps_position() {
    let mut s = CursorState::new();
    s.seek(SeekOrigin::Start(42)).unwrap();
    assert_eq!(s.seek(SeekOrigin::Current(0)), Ok(42));
    assert_eq!(s.position(), 42);
}

#[test]
fn seek_current_moves_both_ways() {
    let mut s = CursorState::new();
    s.seek(SeekOrigin::Start(10)).unwrap();
    assert_eq!(s.seek(SeekOrigin::Current(5)), Ok(15));
    assert_eq!(s.seek(SeekOrigin::Current(-15)), Ok(0));
}

#[test]
fn seek_before_start_fails_and_keeps_position() {
    let mut s = CursorState::new();
    s.seek(SeekOrigin::Start(3)).unwrap();
    assert_eq!(s.seek(SeekOrigin::Current(-4)), Err(CursorError::BeforeStart));
    assert_eq!(s.position(), 3);
    s.ascertain_length(10);
    assert_eq!(s.seek(SeekOrigin::End(-11)), Err(CursorError::BeforeStart));
    assert_eq!(s.position(), 3);
}

#[test]
fn seek_past_max_fails() {
    assert_eq!(resolve_seek(u64::MAX, None, SeekOrigin::Current(1)), Err(CursorError::PastMax));
    assert_eq!(resolve_seek(0, Some(u64::MAX), SeekOrigin::End(1)), Err(CursorError::PastMax));
    assert_eq!(resolve_seek(0, Some(u64::MAX), SeekOrigin::End(0)), Ok(u64::MAX));
    assert_eq!(resolve_seek(9, Some(4), SeekOrigin::End(3)), Ok(7));
}

#[test]
fn advance_moves_position_and_refuses_overflow() {
    let mut s = CursorState::new();
    assert_eq!(s.advance(12), Ok(12));
    assert_eq!(s.advance(0), Ok(12));
    s.seek(SeekOrigin::Start(u64::MAX - 1)).unwrap();
    assert_eq!(s.advance(2), Err(CursorError::PastMax));
    assert_eq!(s.position(), u64::MAX - 1);
}

#[test]
fn interleaved_reads_through_clones_see_their_own_offsets() {
    let content: Vec<u8> = (0u8..=255).collect();
    let shared = Mutex::new(std::io::Cursor::new(content.clone()));
    let mut a = CursorState::new();
    let mut b = CursorState::new();
    b.seek(SeekOrigin::Start(100)).unwrap();
    let mut c = CursorState::new();
    c.ascertain_length(content.len() as u64);
    c.seek(SeekOrigin::End(-10)).unwrap();
    assert_eq!(locked_read(&shared, &mut a, 4), vec![0, 1, 2, 3]);
    assert_eq!(locked_read(&shared, &mut b, 3), vec![100, 101, 102]);
    assert_eq!(locked_read(&shared, &mut c, 4), vec![246, 247, 248, 249]);
    assert_eq!(locked_read(&shared, &mut a, 2), vec![4, 5]);
    assert_eq!(locked_read(&shared, &mut c, 20), vec![250, 251, 252, 253, 254, 255]);
    assert_eq!(locked_read(&shared, &mut b, 1), vec![103]);
    assert_eq!(locked_read(&shared, &mut c, 5), Vec::<u8>::new());
    assert_eq!(a.position(), 6);
    assert_eq!(b.position(), 104);
    assert_eq!(c.position(), 256);
}

#[test]
fn every_offset_and_length_reads_its_own_bytes() {
    let content: Vec<u8> = (0u8..64).map(|x| x.wrapping_mul(7)).collect();
    let shared = Mutex::new(std::io::Cursor::new(content.clone()));
    for off in 0..content.len() {
        for n in 0..8usize {
            let mut a = CursorState::new();
            a.seek(SeekOrigin::Start(off as u64)).unwrap();
            let mut other = CursorState::new();
            other.seek(SeekOrigin::Start(((off * 13) % 64) as u64)).unwrap();
            locked_read(&shared, &mut other, 5);
            let end = std::cmp::min(off + n, content.len());
            assert_eq!(locked_read(&shared, &mut a, n), content[off..end].to_vec());
        }
    }
}
