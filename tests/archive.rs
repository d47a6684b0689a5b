use dirtar::channel::{ChannelState, ChunkChannel, Outcome, RecvOutcome, SendOutcome, StreamError};
use dirtar::session::{advance, after_send_action, ProducerAction, StreamEvent, StreamPhase};
use dirtar::tar::{encode_header, padding, terminator_blocks, ArchiveEntry, EncodeError, EntryKind};
use dirtar::walk::{Child, ChildKind, WalkStep, Walker};
use dirtar::writer::{ArchiveWriter, WriterPhase};
use std::collections::BTreeMap;
use std::io::Read;

fn admitted() -> dirtar::request::ArchiveRequest {
    dirtar::request::validate_request(&Vec::new(), Some(Vec::new()), true).unwrap()
}

/// An in-memory tree: directory path -> listing, file path -> contents.
struct Tree {
    dirs: BTreeMap<Vec<u8>, Vec<Child>>,
    files: BTreeMap<Vec<u8>, Vec<u8>>,
}

impl Tree {
    fn new() -> Tree {
        let mut dirs = BTreeMap::new();
        dirs.insert(Vec::new(), Vec::new());
        Tree { dirs, files: BTreeMap::new() }
    }

    fn split(path: &str) -> (Vec<u8>, Vec<u8>) {
        match path.rfind('/') {
            Some(i) => (path[..i].as_bytes().to_vec(), path[i + 1..].as_bytes().to_vec()),
            None => (Vec::new(), path.as_bytes().to_vec()),
        }
    }

    fn dir(&mut self, path: &str) {
        let (parent, name) = Tree::split(path);
        self.dirs.get_mut(&parent).unwrap().push(Child {
            name,
            kind: ChildKind::Directory,
            size: 0,
            mtime: 1_600_000_000,
            mode: 0o755,
        });
        self.dirs.insert(path.as_bytes().to_vec(), Vec::new());
    }

    fn file(&mut self, path: &str, data: Vec<u8>) {
        let (parent, name) = Tree::split(path);
        self.dirs.get_mut(&parent).unwrap().push(Child {
            name,
            kind: ChildKind::File,
            size: data.len() as u64,
            mtime: 1_600_000_000,
            mode: 0o644,
        });
        self.files.insert(path.as_bytes().to_vec(), data);
    }
}

/// Walks and encodes `tree`, feeding each file's contents in pieces of
/// `piece` bytes. `break_file` names a file whose read fails.
fn encode_tree(tree: &Tree, piece: usize, break_file: Option<&str>) -> (Vec<u8>, WriterPhase) {
    let mut walker = Walker::new(&admitted());
    let mut writer = ArchiveWriter::new();
    let mut out = Vec::new();
    loop {
        match walker.next().unwrap() {
            WalkStep::Done => {
                out.extend(writer.finish().unwrap());
                break;
            }
            WalkStep::List(p) => {
                walker.add_listing(tree.dirs[&p].clone()).unwrap();
            }
            WalkStep::Entry(e) => {
                out.extend(writer.begin_entry(&e).unwrap());
                if e.kind == EntryKind::File {
                    if break_file.map(|b| b.as_bytes()) == Some(&e.path[..]) {
                        writer.fail();
                        break;
                    }
                    let data = &tree.files[&e.path];
                    for c in data.chunks(piece.max(1)) {
                        out.extend(writer.write_data(c.to_vec()).unwrap());
                    }
                    out.extend(writer.end_entry().unwrap());
                }
            }
        }
    }
    (out, writer.current_phase())
}

fn pattern(n: usize, seed: u8) -> Vec<u8> {
    (0..n).map(|i| (i as u8).wrapping_mul(31).wrapping_add(seed)).collect()
}

fn fixture() -> (Tree, Vec<(String, bool, Vec<u8>)>) {
    let mut t = Tree::new();
    let long = format!("docs/{}", "n".repeat(120));
    let mut expect = Vec::new();
    t.dir("docs");
    t.dir("empty");
    t.file("zero.txt", Vec::new());
    t.file("one.bin", pattern(1, 1));
    t.file("docs/block.bin", pattern(512, 2));
    t.file("docs/odd.bin", pattern(513, 3));
    t.file("docs/big.bin", pattern(3000, 4));
    t.file(&long, pattern(511, 5));
    t.dir("docs/sub");
    t.file("docs/sub/deep.txt", b"deep".to_vec());
    expect.push(("docs".to_string(), true, Vec::new()));
    expect.push(("docs/big.bin".to_string(), false, pattern(3000, 4)));
    expect.push(("docs/block.bin".to_string(), false, pattern(512, 2)));
    expect.push((long.clone(), false, pattern(511, 5)));
    expect.push(("docs/odd.bin".to_string(), false, pattern(513, 3)));
    expect.push(("docs/sub".to_string(), true, Vec::new()));
    expect.push(("docs/sub/deep.txt".to_string(), false, b"deep".to_vec()));
    expect.push(("empty".to_string(), true, Vec::new()));
    expect.push(("one.bin".to_string(), false, pattern(1, 1)));
    expect.push(("zero.txt".to_string(), false, Vec::new()));
    (t, expect)
}

#[test]
fn round_trip_through_tar_reader() {
    let (tree, expect) = fixture();
    let (bytes, phase) = encode_tree(&tree, 700, None);
    assert_eq!(phase, WriterPhase::Completed);
    assert_eq!(bytes.len() % 512, 0);
    let mut archive = tar::Archive::new(&bytes[..]);
    let mut got = Vec::new();
    for entry in archive.entries().unwrap() {
        let mut entry = entry.unwrap();
        let path = entry.path().unwrap().to_string_lossy().trim_end_matches('/').to_string();
        let is_dir = entry.header().entry_type().is_dir();
        let size = entry.size();
        let mut data = Vec::new();
        entry.read_to_end(&mut data).unwrap();
        assert_eq!(size as usize, data.len());
        got.push((path, is_dir, data));
    }
    assert_eq!(got, expect);
}

#[test]
fn same_tree_same_bytes() {
    let (tree, _) = fixture();
    let (a, _) = encode_tree(&tree, 1, None);
    let (b, _) = encode_tree(&tree, 4096, None);
    assert_eq!(a, b);
}

#[test]
fn terminator_only_on_completion() {
    let mut t = Tree::new();
    t.file("a.bin", vec![7u8; 600]);
    t.file("b.bin", vec![9u8; 10]);
    let (done, phase) = encode_tree(&t, 100, None);
    assert_eq!(phase, WriterPhase::Completed);
    assert!(done[done.len() - 1024..].iter().all(|b| *b == 0));
    assert_eq!(done.len(), 512 + 1024 + 512 + 512 + 1024);

    let (cut, phase) = encode_tree(&t, 100, Some("b.bin"));
    assert_eq!(phase, WriterPhase::Failed);
    assert_eq!(cut.len(), 512 + 1024 + 512);
    assert!(!cut[cut.len() - 1024..].iter().all(|b| *b == 0));
}

#[test]
fn empty_directory_archives_to_terminator() {
    let t = Tree::new();
    let (bytes, phase) = encode_tree(&t, 10, None);
    assert_eq!(phase, WriterPhase::Completed);
    assert_eq!(bytes, vec![0u8; 1024]);
}

#[test]
fn header_fields_exact() {
    let e = ArchiveEntry { path: b"a.txt".to_vec(), kind: EntryKind::File, size: 5, mtime: 8, mode: 0o644 };
    let h = encode_header(&e).unwrap();
    assert_eq!(h.len(), 512);
    assert_eq!(&h[0..5], b"a.txt");
    assert!(h[5..100].iter().all(|b| *b == 0));
    assert_eq!(&h[100..108], b"0000644\0");
    assert_eq!(&h[108..116], b"0000000\0");
    assert_eq!(&h[124..136], b"00000000005\0");
    assert_eq!(&h[136..148], b"00000000010\0");
    assert_eq!(h[156], b'0');
    assert_eq!(&h[257..265], b"ustar\x0000");
    let sum: u32 = h.iter().enumerate().map(|(i, b)| if (148..156).contains(&i) { 32 } else { *b as u32 }).sum();
    assert_eq!(&h[148..156], format!("{:06o}\0 ", sum).as_bytes());
}

#[test]
fn directory_header_has_slash_and_no_size() {
    let e = ArchiveEntry { path: b"d".to_vec(), kind: EntryKind::Directory, size: 99, mtime: 0, mode: 0o755 };
    let h = encode_header(&e).unwrap();
    assert_eq!(&h[0..3], b"d/\0");
    assert_eq!(&h[124..136], b"00000000000\0");
    assert_eq!(h[156], b'5');
}

#[test]
fn long_name_uses_extension_record() {
    let name = vec![b'x'; 150];
    let e = ArchiveEntry { path: name.clone(), kind: EntryKind::File, size: 1, mtime: 0, mode: 0o600 };
    let h = encode_header(&e).unwrap();
    assert_eq!(h.len(), 512 * 3);
    assert_eq!(&h[0..14], b"././@LongLink\0");
    assert_eq!(h[156], b'L');
    assert_eq!(&h[124..136], b"00000000227\0");
    assert_eq!(&h[512..662], &name[..]);
    assert_eq!(h[662], 0);
    assert_eq!(&h[1024..1124], &name[..100]);
}

#[test]
fn header_errors() {
    let mut e = ArchiveEntry { path: Vec::new(), kind: EntryKind::File, size: 1, mtime: 0, mode: 0 };
    assert_eq!(encode_header(&e).unwrap_err(), EncodeError::InvalidName);
    e.path = b"a\0b".to_vec();
    assert_eq!(encode_header(&e).unwrap_err(), EncodeError::InvalidName);
    e.path = b"ab".to_vec();
    e.size = 8u64.pow(11);
    assert_eq!(encode_header(&e).unwrap_err(), EncodeError::FieldOverflow);
    e.size = 8u64.pow(11) - 1;
    assert!(encode_header(&e).is_ok());
    e.mode = 8u64.pow(7);
    assert_eq!(encode_header(&e).unwrap_err(), EncodeError::FieldOverflow);
}

#[test]
fn padding_and_terminator() {
    assert_eq!(padding(0).len(), 0);
    assert_eq!(padding(1).len(), 511);
    assert_eq!(padding(512).len(), 0);
    assert_eq!(padding(1000).len(), 24);
    assert!(padding(1).iter().all(|b| *b == 0));
    let t = terminator_blocks();
    assert_eq!(t.len(), 1024);
    assert!(t.iter().all(|b| *b == 0));
}

#[test]
fn file_that_grew_or_shrank_is_an_error() {
    let e = ArchiveEntry { path: b"f".to_vec(), kind: EntryKind::File, size: 4, mtime: 0, mode: 0 };
    let mut w = ArchiveWriter::new();
    w.begin_entry(&e).unwrap();
    assert_eq!(w.write_data(vec![1, 2, 3, 4, 5]).unwrap_err(), EncodeError::SizeMismatch);
    assert_eq!(w.current_phase(), WriterPhase::Failed);

    let mut w = ArchiveWriter::new();
    w.begin_entry(&e).unwrap();
    w.write_data(vec![1, 2]).unwrap();
    assert_eq!(w.end_entry().unwrap_err(), EncodeError::SizeMismatch);
    assert_eq!(w.current_phase(), WriterPhase::Failed);
}

#[test]
fn writer_refuses_calls_out_of_order() {
    let mut w = ArchiveWriter::new();
    assert_eq!(w.write_data(vec![1]).unwrap_err(), EncodeError::OutOfOrder);
    let mut w = ArchiveWriter::new();
    assert_eq!(w.end_entry().unwrap_err(), EncodeError::OutOfOrder);
    let mut w = ArchiveWriter::new();
    w.finish().unwrap();
    assert_eq!(w.current_phase(), WriterPhase::Completed);
    assert_eq!(w.finish().unwrap_err(), EncodeError::OutOfOrder);
}

#[test]
fn failure_in_one_archive_leaves_another_intact() {
    let mut a = Tree::new();
    a.file("x.bin", vec![1u8; 50]);
    a.file("y.bin", vec![2u8; 50]);
    let mut b = Tree::new();
    b.file("z.bin", vec![3u8; 70]);

    let mut ch_a = ChunkChannel::new(4);
    let mut ch_b = ChunkChannel::new(4);
    let (bytes_a, phase_a) = encode_tree(&a, 16, Some("y.bin"));
    let (bytes_b, phase_b) = encode_tree(&b, 16, None);
    assert_eq!(phase_a, WriterPhase::Failed);
    assert_eq!(phase_b, WriterPhase::Completed);
    assert!(matches!(ch_a.try_send(bytes_a), SendOutcome::Sent));
    ch_a.close(Outcome::Failed(StreamError::Unreadable));
    assert!(matches!(ch_b.try_send(bytes_b.clone()), SendOutcome::Sent));
    ch_b.close(Outcome::Done);

    assert!(matches!(ch_a.try_recv(), RecvOutcome::Chunk(_)));
    assert!(matches!(ch_a.try_recv(), RecvOutcome::Ended(Outcome::Failed(StreamError::Unreadable))));
    match ch_b.try_recv() {
        RecvOutcome::Chunk(c) => assert_eq!(c, bytes_b),
        _ => panic!("expected a chunk"),
    }
    assert!(matches!(ch_b.try_recv(), RecvOutcome::Ended(Outcome::Done)));

    let mut p = advance(StreamPhase::Idle, StreamEvent::Validated);
    p = advance(p, StreamEvent::ChunkProduced);
    assert_eq!(advance(p, StreamEvent::Closed(Outcome::Failed(StreamError::Unreadable))), StreamPhase::Errored);
    assert_eq!(advance(p, StreamEvent::Closed(Outcome::Done)), StreamPhase::Completed);
}

#[test]
fn producer_stops_once_consumer_is_gone() {
    let mut ch = ChunkChannel::new(2);
    assert!(matches!(ch.try_send(vec![1]), SendOutcome::Sent));
    assert!(matches!(ch.try_recv(), RecvOutcome::Chunk(_)));
    assert!(matches!(ch.try_send(vec![2]), SendOutcome::Sent));
    ch.cancel();
    assert_eq!(ch.len(), 0);
    assert_eq!(ch.state(), ChannelState::Closed(Outcome::Cancelled));
    let r = ch.try_send(vec![3]);
    assert_eq!(after_send_action(&r), ProducerAction::Stop);
    match r {
        SendOutcome::Disconnected(c) => assert_eq!(c, vec![3]),
        _ => panic!("expected Disconnected"),
    }
    ch.close(Outcome::Done);
    assert_eq!(ch.state(), ChannelState::Closed(Outcome::Cancelled));
}

#[test]
fn valid_entry_is_accepted_and_completed_session_stays_completed() {
    let e = ArchiveEntry { path: b"d".to_vec(), kind: EntryKind::Directory, size: 0, mtime: 0, mode: 0o755 };
    let mut w = ArchiveWriter::new();
    assert!(w.begin_entry(&e).is_ok());
    assert_eq!(w.current_phase(), WriterPhase::Ready);
    w.finish().unwrap();
    assert_eq!(w.begin_entry(&e).unwrap_err(), EncodeError::OutOfOrder);
    assert_eq!(w.current_phase(), WriterPhase::Completed);
    w.fail();
    assert_eq!(w.current_phase(), WriterPhase::Completed);
}
