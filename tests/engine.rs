use hash_engine::chunking::{next_chunk_len, split_chunks, CHUNK_SIZE};
use hash_engine::digest::{digest_hex, to_lower_hex, Accumulator};
use hash_engine::pipeline::{run_in_memory, FileState, Pipeline, SendOutcome};
use hash_engine::progress::{percent, ProgressTracker};
use hash_engine::registry::{same_bytes, same_text, Registry};

const EMPTY_DIGEST: &str = "e3b0c44298fc1c149afbf4c8996fb92427ae41e4649b934ca495991b7852b855";
const ABC_DIGEST: &str = "ba7816bf8f01cfea414140de5dae2223b00361a396177a9cb410ff61f20015ad";

fn pattern(n: usize) -> Vec<u8> {
    (0..n).map(|i| (i % 251) as u8).collect()
}

fn completed(d: &str) -> FileState {
    FileState::Completed { digest: d.to_string() }
}

#[test]
fn hex_encoding_is_lowercase_two_digits_per_byte() {
    assert_eq!(to_lower_hex(&[0x00, 0x0f, 0xab, 0xff, 0x10]), "000fabff10");
    assert_eq!(to_lower_hex(&[]), "");
}

#[test]
fn digest_known_answers() {
    assert_eq!(digest_hex(b""), EMPTY_DIGEST);
    assert_eq!(digest_hex(b"abc"), ABC_DIGEST);
    assert_eq!(
        digest_hex(b"abcdbcdecdefdefgefghfghighijhijkijkljklmklmnlmnomnopnopq"),
        "248d6a61d20638b8e5c026930c3e6039a33ce45964ff2167f6ecedd419db06c1"
    );
}

#[test]
fn accumulator_in_pieces_matches_one_shot() {
    let mut acc = Accumulator::new();
    acc.update(b"a");
    acc.update(b"");
    acc.update(b"bc");
    assert_eq!(acc.finalize_hex(), ABC_DIGEST);
    let mut acc = Accumulator::new();
    acc.update(b"abc");
    assert_eq!(acc.take_digest_hex(), ABC_DIGEST);
    assert_eq!(acc.take_digest_hex(), EMPTY_DIGEST);
}

#[test]
fn chunk_lengths_follow_the_ceiling() {
    assert_eq!(CHUNK_SIZE, 1024 * 1024);
    assert_eq!(next_chunk_len(0), 0);
    assert_eq!(next_chunk_len(5), 5);
    assert_eq!(next_chunk_len(CHUNK_SIZE), CHUNK_SIZE);
    assert_eq!(next_chunk_len(CHUNK_SIZE + 1), CHUNK_SIZE);
    assert_eq!(next_chunk_len(u64::MAX), CHUNK_SIZE);
}

#[test]
fn chunks_concatenate_to_the_content() {
    for n in [0usize, 1, CHUNK_SIZE as usize, CHUNK_SIZE as usize + 1, 2 * CHUNK_SIZE as usize + 5] {
        let data = pattern(n);
        let chunks = split_chunks(&data);
        let joined: Vec<u8> = chunks.concat();
        assert_eq!(joined, data);
        assert_eq!(chunks.len(), (n + CHUNK_SIZE as usize - 1) / CHUNK_SIZE as usize);
        for (i, c) in chunks.iter().enumerate() {
            assert!(!c.is_empty() && c.len() <= CHUNK_SIZE as usize);
            if i + 1 < chunks.len() {
                assert_eq!(c.len(), CHUNK_SIZE as usize);
            }
        }
    }
    let last = split_chunks(&pattern(2 * CHUNK_SIZE as usize + 5));
    assert_eq!(last[2].len(), 5);
}

#[test]
fn percent_values() {
    assert_eq!(percent(0, 10), 0);
    assert_eq!(percent(5, 10), 50);
    assert_eq!(percent(1, 3), 33);
    assert_eq!(percent(2, 3), 66);
    assert_eq!(percent(10, 10), 100);
    assert_eq!(percent(0, 0), 100);
    assert_eq!(percent(u64::MAX - 1, u64::MAX), 99);
}

#[test]
fn tracker_reports_only_rises() {
    let mut t = ProgressTracker::new(1000);
    assert_eq!(t.advance(1), None);
    assert_eq!(t.advance(9), Some(1));
    assert_eq!(t.advance(5), None);
    assert_eq!(t.advance(485), Some(50));
    assert_eq!(t.advance(500), Some(100));
    assert_eq!(t.done(), 1000);
}

#[test]
fn empty_file_completes_at_once() {
    let events = run_in_memory(&[], &[]);
    assert_eq!(events, vec![completed(EMPTY_DIGEST)]);
}

#[test]
fn one_chunk_file_progresses_then_completes() {
    let data = pattern(CHUNK_SIZE as usize);
    let events = run_in_memory(&data, &[]);
    assert_eq!(
        events,
        vec![
            FileState::InProgress { percent: 0 },
            FileState::InProgress { percent: 100 },
            completed(&digest_hex(&data)),
        ]
    );
}

#[test]
fn several_chunks_give_rising_percentages() {
    let data = pattern(3 * CHUNK_SIZE as usize);
    let events = run_in_memory(&data, &[SendOutcome::Delivered, SendOutcome::Full]);
    assert_eq!(
        events,
        vec![
            FileState::InProgress { percent: 0 },
            FileState::InProgress { percent: 33 },
            FileState::InProgress { percent: 66 },
            FileState::InProgress { percent: 100 },
            completed(&digest_hex(&data)),
        ]
    );
}

#[test]
fn small_file_digest_matches_known_answer() {
    let events = run_in_memory(b"abc", &[]);
    assert_eq!(events.last(), Some(&completed(ABC_DIGEST)));
    assert_eq!(events.len(), 3);
}

#[test]
fn disconnect_stops_before_completion() {
    let data = pattern(3 * CHUNK_SIZE as usize);
    let events = run_in_memory(&data, &[SendOutcome::Delivered, SendOutcome::Disconnected]);
    assert_eq!(events.len(), 2);
    assert!(events.iter().all(|e| !matches!(e, FileState::Completed { .. })));
    let events = run_in_memory(&data, &[SendOutcome::Disconnected]);
    assert_eq!(events, vec![FileState::InProgress { percent: 0 }]);
}

#[test]
fn stopped_pipeline_proposes_nothing() {
    let mut p = Pipeline::new(10);
    assert_eq!(p.next_read(), None);
    assert_eq!(p.start(), Some(FileState::InProgress { percent: 0 }));
    assert_eq!(p.start(), None);
    assert_eq!(p.next_read(), Some(10));
    p.on_send(SendOutcome::Full);
    assert_eq!(p.next_read(), Some(10));
    p.on_send(SendOutcome::Disconnected);
    assert_eq!(p.next_read(), None);
    assert_eq!(p.feed(&[0u8; 10]), None);
    assert_eq!(p.finish(), None);
}

#[test]
fn short_read_stops_the_pipeline() {
    let mut p = Pipeline::new(10);
    p.start();
    assert_eq!(p.feed(&[1u8; 4]), None);
    assert_eq!(p.next_read(), None);
    assert_eq!(p.finish(), None);
    let mut q = Pipeline::new(10);
    q.start();
    q.read_failed();
    assert_eq!(q.next_read(), None);
    assert_eq!(q.finish(), None);
}

#[test]
fn pipeline_by_hand() {
    let mut p = Pipeline::new(3);
    assert_eq!(p.finish(), None);
    p.start();
    assert_eq!(p.next_read(), Some(3));
    assert_eq!(p.feed(b"abc"), Some(FileState::InProgress { percent: 100 }));
    assert_eq!(p.next_read(), None);
    assert_eq!(p.finish(), Some(completed(ABC_DIGEST)));
    assert_eq!(p.finish(), None);
}

#[test]
fn byte_comparison() {
    assert!(same_bytes(b"/a/b", b"/a/b"));
    assert!(!same_bytes(b"/a/b", b"/a/c"));
    assert!(!same_bytes(b"/a", b"/a/b"));
    assert!(same_bytes(b"", b""));
}

#[test]
fn registering_twice_keeps_one_entry() {
    let mut r = Registry::new();
    assert!(r.begin(b"/tmp/a", true));
    assert!(!r.begin(b"/tmp/a", true));
    assert!(!r.begin(b"/tmp/dir", false));
    assert_eq!(r.len(), 1);
    r.apply(b"/tmp/a", FileState::InProgress { percent: 40 });
    assert!(!r.begin(b"/tmp/a", true));
    assert_eq!(r.active(), vec![b"/tmp/a".to_vec()]);
}

#[test]
fn completed_file_is_not_rerun() {
    let mut r = Registry::new();
    r.begin(b"/tmp/a", true);
    r.apply(b"/tmp/a", completed(EMPTY_DIGEST));
    assert!(!r.begin(b"/tmp/a", true));
    assert_eq!(r.len(), 1);
    assert!(r.active().is_empty());
    assert_eq!(r.entry(0).state, completed(EMPTY_DIGEST));
}

#[test]
fn registry_remove_clear_and_ignore_unknown() {
    let mut r = Registry::new();
    r.begin(b"a", true);
    r.begin(b"b", true);
    r.apply(b"zzz", FileState::InProgress { percent: 5 });
    assert_eq!(r.entry(0).state, FileState::Pending);
    assert_eq!(r.find(b"b"), Some(1));
    r.remove(b"a");
    assert_eq!(r.len(), 1);
    assert_eq!(r.entry(0).identity, b"b".to_vec());
    assert_eq!(r.find(b"a"), None);
    assert!(!r.clear());
    assert_eq!(r.len(), 0);
    assert!(r.clear());
}

#[test]
fn overall_progress_takes_the_lowest() {
    let mut r = Registry::new();
    assert_eq!(r.overall_progress(), 0);
    r.begin(b"a", true);
    r.begin(b"b", true);
    r.begin(b"c", true);
    r.apply(b"a", FileState::InProgress { percent: 70 });
    r.apply(b"b", completed(EMPTY_DIGEST));
    r.apply(b"c", FileState::InProgress { percent: 20 });
    assert_eq!(r.overall_progress(), 20);
    r.apply(b"c", FileState::InProgress { percent: 90 });
    assert_eq!(r.overall_progress(), 70);
}

#[test]
fn two_files_interleaved_keep_their_own_digests() {
    let a = pattern(2 * CHUNK_SIZE as usize + 7);
    let b = b"abc".to_vec();
    let mut r = Registry::new();
    r.begin(b"a", true);
    r.begin(b"b", true);
    let ea = run_in_memory(&a, &[]);
    let eb = run_in_memory(&b, &[]);
    let mut ia = ea.into_iter();
    let mut ib = eb.into_iter();
    loop {
        let x = ia.next();
        let y = ib.next();
        if x.is_none() && y.is_none() {
            break;
        }
        if let Some(s) = x {
            r.apply(b"a", s);
        }
        if let Some(s) = y {
            r.apply(b"b", s);
        }
    }
    assert_eq!(r.entry(0).state, completed(&digest_hex(&a)));
    assert_eq!(r.entry(1).state, completed(ABC_DIGEST));
    assert!(r.active().is_empty());
}

#[test]
fn digests_compared_with_the_first() {
    assert!(same_text(&"abc".to_string(), &"abc".to_string()));
    assert!(!same_text(&"abc".to_string(), &"abd".to_string()));
    let mut r = Registry::new();
    assert_eq!(r.digest_matches_first(0), None);
    r.begin(b"a", true);
    r.begin(b"b", true);
    r.begin(b"c", true);
    r.begin(b"d", true);
    r.apply(b"b", completed(ABC_DIGEST));
    assert_eq!(r.digest_matches_first(1), None);
    r.apply(b"a", completed(ABC_DIGEST));
    r.apply(b"c", completed(EMPTY_DIGEST));
    r.apply(b"d", FileState::InProgress { percent: 3 });
    assert_eq!(r.digest_matches_first(0), Some(true));
    assert_eq!(r.digest_matches_first(1), Some(true));
    assert_eq!(r.digest_matches_first(2), Some(false));
    assert_eq!(r.digest_matches_first(3), None);
    assert_eq!(r.digest_matches_first(4), None);
}
