//! Decoding a value tree into a descriptor.

use dottorrent::Bvalue;
use dottorrent::Sha1Hash;
use dottorrent::Torrent;
use dottorrent::TorrentDirTreeNode;
use dottorrent::TorrentFromBencodeError;

fn bytes(s: &str) -> Bvalue {
    Bvalue::Bytes(s.as_bytes().to_vec())
}

fn entry(k: &str, v: Bvalue) -> (Vec<u8>, Bvalue) {
    (k.as_bytes().to_vec(), v)
}

fn single_file_entries(pieces: Vec<u8>, length: i64) -> Vec<(Vec<u8>, Bvalue)> {
    vec![
        entry("name", bytes("a.txt")),
        entry("piece length", Bvalue::Int(16384)),
        entry("pieces", Bvalue::Bytes(pieces)),
        entry("length", Bvalue::Int(length)),
    ]
}

fn file_entry(length: i64, path: Vec<&str>) -> Bvalue {
    let comps: Vec<Bvalue> = path.into_iter().map(bytes).collect();
    Bvalue::Dict(vec![
        entry("length", Bvalue::Int(length)),
        entry("path", Bvalue::List(comps)),
    ])
}

fn multi_file_entries(files: Vec<Bvalue>) -> Vec<(Vec<u8>, Bvalue)> {
    vec![
        entry("name", bytes("root")),
        entry("piece length", Bvalue::Int(16384)),
        entry("pieces", Bvalue::Bytes(vec![7u8; 20])),
        entry("files", Bvalue::List(files)),
    ]
}

#[test]
fn single_file_descriptor() {
    let first = [0x01u8; 20];
    let second = [0xabu8; 20];
    let mut pieces = Vec::new();
    pieces.extend_from_slice(&first);
    pieces.extend_from_slice(&second);
    let v = Bvalue::Dict(single_file_entries(pieces, 5));
    let t = Torrent::from_bencode(&v).unwrap();
    assert_eq!(t.filename, "a.txt");
    assert_eq!(t.piece_length, 16384);
    assert_eq!(t.contents, TorrentDirTreeNode::FileNode(5));
    assert_eq!(
        t.pieces,
        vec![Sha1Hash { hash: first }, Sha1Hash { hash: second }]
    );
    assert!(t.trackers.is_empty());
    assert!(t.nodes.is_empty());
    assert!(t.httpseeds.is_empty());
    assert!(t.urllist.is_none());
    assert!(!t.private);
    assert!(t.merkle_root.is_none());
}

#[test]
fn announce_list_tiers_kept_in_order() {
    let mut entries = single_file_entries(vec![2u8; 20], 1);
    entries.insert(
        0,
        entry(
            "announce-list",
            Bvalue::List(vec![
                Bvalue::List(vec![bytes("http://a/"), bytes("http://b/")]),
                Bvalue::List(vec![bytes("http://c/")]),
            ]),
        ),
    );
    let t = Torrent::from_bencode(&Bvalue::Dict(entries)).unwrap();
    assert_eq!(
        t.trackers,
        vec![
            vec!["http://a/".to_string(), "http://b/".to_string()],
            vec!["http://c/".to_string()],
        ]
    );
}

#[test]
fn announce_alone_becomes_one_tier() {
    let mut entries = single_file_entries(vec![2u8; 20], 1);
    entries.insert(0, entry("announce", bytes("http://x/")));
    let t = Torrent::from_bencode(&Bvalue::Dict(entries)).unwrap();
    assert_eq!(t.trackers, vec![vec!["http://x/".to_string()]]);
}

#[test]
fn empty_announce_list_wins_over_announce() {
    let mut entries = single_file_entries(vec![2u8; 20], 1);
    entries.insert(0, entry("announce", bytes("http://x/")));
    entries.insert(0, entry("announce-list", Bvalue::List(vec![])));
    let t = Torrent::from_bencode(&Bvalue::Dict(entries)).unwrap();
    assert_eq!(t.trackers, Vec::<Vec<String>>::new());
}

#[test]
fn present_announce_list_leaves_announce_unread() {
    // With announce-list present, even a malformed announce field is never
    // looked at.
    let mut entries = single_file_entries(vec![2u8; 20], 1);
    entries.insert(0, entry("announce", Bvalue::Int(3)));
    entries.insert(
        0,
        entry(
            "announce-list",
            Bvalue::List(vec![Bvalue::List(vec![bytes("http://a/")])]),
        ),
    );
    let t = Torrent::from_bencode(&Bvalue::Dict(entries)).unwrap();
    assert_eq!(t.trackers, vec![vec!["http://a/".to_string()]]);
}

#[test]
fn short_pieces_blob_is_rejected() {
    let v = Bvalue::Dict(single_file_entries(vec![0u8; 39], 1));
    assert_eq!(
        Torrent::from_bencode(&v),
        Err(TorrentFromBencodeError::InvalidPiecesLength(39))
    );
}

#[test]
fn empty_pieces_blob_is_a_multiple_of_twenty() {
    // Zero bytes are an exact multiple of 20, so the blob passes the length
    // check and yields no digests.
    let v = Bvalue::Dict(single_file_entries(Vec::new(), 1));
    let t = Torrent::from_bencode(&v).unwrap();
    assert!(t.pieces.is_empty());
}

#[test]
fn multi_file_tree_shares_directories() {
    let files = vec![
        file_entry(5, vec!["d", "e.txt"]),
        file_entry(7, vec!["d", "f.txt"]),
    ];
    let t = Torrent::from_bencode(&Bvalue::Dict(multi_file_entries(files))).unwrap();
    let expected = TorrentDirTreeNode::DirNode(vec![(
        "d".to_string(),
        TorrentDirTreeNode::DirNode(vec![
            ("e.txt".to_string(), TorrentDirTreeNode::FileNode(5)),
            ("f.txt".to_string(), TorrentDirTreeNode::FileNode(7)),
        ]),
    )]);
    assert_eq!(t.contents, expected);
}

#[test]
fn duplicate_file_name_is_rejected() {
    let files = vec![file_entry(1, vec!["x"]), file_entry(2, vec!["x"])];
    assert_eq!(
        Torrent::from_bencode(&Bvalue::Dict(multi_file_entries(files))),
        Err(TorrentFromBencodeError::DuplicateFileName)
    );
}

#[test]
fn file_colliding_with_directory_is_rejected() {
    let files = vec![file_entry(1, vec!["x", "y"]), file_entry(2, vec!["x"])];
    assert_eq!(
        Torrent::from_bencode(&Bvalue::Dict(multi_file_entries(files))),
        Err(TorrentFromBencodeError::DuplicateFileName)
    );
}

#[test]
fn directory_colliding_with_file_is_rejected() {
    let files = vec![file_entry(1, vec!["x"]), file_entry(2, vec!["x", "y"])];
    assert_eq!(
        Torrent::from_bencode(&Bvalue::Dict(multi_file_entries(files))),
        Err(TorrentFromBencodeError::DuplicateFileName)
    );
}

#[test]
fn bare_integer_root_is_rejected() {
    assert_eq!(
        Torrent::from_bencode(&Bvalue::Int(7)),
        Err(TorrentFromBencodeError::NotADict)
    );
}

#[test]
fn missing_name_is_rejected() {
    let mut entries = single_file_entries(vec![2u8; 20], 1);
    entries.remove(0);
    assert_eq!(
        Torrent::from_bencode(&Bvalue::Dict(entries)),
        Err(TorrentFromBencodeError::NameNotPresent)
    );
}

#[test]
fn neither_length_nor_files_is_rejected() {
    let entries = vec![
        entry("name", bytes("a.txt")),
        entry("piece length", Bvalue::Int(16384)),
        entry("pieces", Bvalue::Bytes(vec![2u8; 20])),
    ];
    assert_eq!(
        Torrent::from_bencode(&Bvalue::Dict(entries)),
        Err(TorrentFromBencodeError::NietherLengthOrFilesPresent)
    );
}

#[test]
fn multibyte_name_is_decoded_as_utf8() {
    let mut entries = single_file_entries(vec![2u8; 20], 1);
    entries[0] = (b"name".to_vec(), Bvalue::Bytes("caf\u{e9}.txt".as_bytes().to_vec()));
    let t = Torrent::from_bencode(&Bvalue::Dict(entries)).unwrap();
    assert_eq!(t.filename, "caf\u{e9}.txt");
    assert_eq!(t.filename.chars().count(), 8);
}

#[test]
fn invalid_utf8_name_is_rejected() {
    let mut entries = single_file_entries(vec![2u8; 20], 1);
    entries[0] = (b"name".to_vec(), Bvalue::Bytes(vec![0xff, 0xfe]));
    assert_eq!(
        Torrent::from_bencode(&Bvalue::Dict(entries)),
        Err(TorrentFromBencodeError::NameInvalidUtf8)
    );
}

#[test]
fn malformed_tracker_url_is_rejected() {
    let mut entries = single_file_entries(vec![2u8; 20], 1);
    entries.insert(
        0,
        entry(
            "announce-list",
            Bvalue::List(vec![Bvalue::List(vec![bytes("not a url")])]),
        ),
    );
    assert_eq!(
        Torrent::from_bencode(&Bvalue::Dict(entries)),
        Err(TorrentFromBencodeError::TrackerUrlParseError)
    );
}

#[test]
fn nodes_are_parsed_and_hosts_normalized() {
    let mut entries = single_file_entries(vec![2u8; 20], 1);
    entries.insert(
        0,
        entry(
            "nodes",
            Bvalue::List(vec![
                Bvalue::List(vec![bytes("1.2.3.4"), Bvalue::Int(1000)]),
                Bvalue::List(vec![bytes("FOO.org"), Bvalue::Int(1001)]),
            ]),
        ),
    );
    let t = Torrent::from_bencode(&Bvalue::Dict(entries)).unwrap();
    assert_eq!(
        t.nodes,
        vec![
            ("1.2.3.4".to_string(), 1000u16),
            ("foo.org".to_string(), 1001u16),
        ]
    );
}

#[test]
fn node_port_out_of_range_is_rejected() {
    let mut entries = single_file_entries(vec![2u8; 20], 1);
    entries.insert(
        0,
        entry(
            "nodes",
            Bvalue::List(vec![Bvalue::List(vec![
                bytes("1.2.3.4"),
                Bvalue::Int(65536),
            ])]),
        ),
    );
    assert_eq!(
        Torrent::from_bencode(&Bvalue::Dict(entries)),
        Err(TorrentFromBencodeError::NodePortOutOfRange)
    );
}

#[test]
fn node_of_wrong_arity_is_rejected() {
    let mut entries = single_file_entries(vec![2u8; 20], 1);
    entries.insert(
        0,
        entry(
            "nodes",
            Bvalue::List(vec![Bvalue::List(vec![bytes("1.2.3.4")])]),
        ),
    );
    assert_eq!(
        Torrent::from_bencode(&Bvalue::Dict(entries)),
        Err(TorrentFromBencodeError::NodeInvalidList)
    );
}

#[test]
fn url_list_and_httpseeds_are_read() {
    let mut entries = single_file_entries(vec![2u8; 20], 1);
    entries.insert(0, entry("url-list", bytes("http://mirror/")));
    entries.insert(
        0,
        entry("httpseeds", Bvalue::List(vec![bytes("http://seed/")])),
    );
    let t = Torrent::from_bencode(&Bvalue::Dict(entries)).unwrap();
    assert_eq!(t.urllist, Some("http://mirror/".to_string()));
    assert_eq!(t.httpseeds, vec!["http://seed/".to_string()]);
}

#[test]
fn httpseeds_of_wrong_shape_is_rejected() {
    let mut entries = single_file_entries(vec![2u8; 20], 1);
    entries.insert(0, entry("httpseeds", Bvalue::Int(1)));
    assert_eq!(
        Torrent::from_bencode(&Bvalue::Dict(entries)),
        Err(TorrentFromBencodeError::HttpSeedsNotAList)
    );
}

#[test]
fn info_dictionary_is_selected_when_present() {
    let info = single_file_entries(vec![9u8; 20], 3);
    let entries = vec![
        entry("announce", bytes("http://x/")),
        entry("info", Bvalue::Dict(info)),
    ];
    let t = Torrent::from_bencode(&Bvalue::Dict(entries)).unwrap();
    assert_eq!(t.filename, "a.txt");
    assert_eq!(t.contents, TorrentDirTreeNode::FileNode(3));
}

#[test]
fn info_of_wrong_shape_is_rejected() {
    let entries = vec![entry("info", Bvalue::Int(1))];
    assert_eq!(
        Torrent::from_bencode(&Bvalue::Dict(entries)),
        Err(TorrentFromBencodeError::InfoDictNotADict)
    );
}

#[test]
fn private_flag_true_iff_nonzero() {
    let mut entries = single_file_entries(vec![2u8; 20], 1);
    entries.push(entry("private", Bvalue::Int(1)));
    let t = Torrent::from_bencode(&Bvalue::Dict(entries)).unwrap();
    assert!(t.private);

    let mut entries = single_file_entries(vec![2u8; 20], 1);
    entries.push(entry("private", Bvalue::Int(0)));
    let t = Torrent::from_bencode(&Bvalue::Dict(entries)).unwrap();
    assert!(!t.private);
}

#[test]
fn root_hash_is_validated() {
    let mut entries = single_file_entries(vec![2u8; 20], 1);
    entries.push(entry("root hash", Bvalue::Bytes(vec![5u8; 20])));
    let t = Torrent::from_bencode(&Bvalue::Dict(entries)).unwrap();
    assert_eq!(t.merkle_root, Some(Sha1Hash { hash: [5u8; 20] }));

    let mut entries = single_file_entries(vec![2u8; 20], 1);
    entries.push(entry("root hash", Bvalue::Bytes(vec![5u8; 19])));
    assert_eq!(
        Torrent::from_bencode(&Bvalue::Dict(entries)),
        Err(TorrentFromBencodeError::RootHashInvalidHashLength(19))
    );
}

#[test]
fn piece_length_is_required_and_ranged() {
    let entries = vec![
        entry("name", bytes("a.txt")),
        entry("pieces", Bvalue::Bytes(vec![2u8; 20])),
        entry("length", Bvalue::Int(1)),
    ];
    assert_eq!(
        Torrent::from_bencode(&Bvalue::Dict(entries)),
        Err(TorrentFromBencodeError::PieceLengthNotPresent)
    );

    let mut entries = single_file_entries(vec![2u8; 20], 1);
    entries[1] = (b"piece length".to_vec(), Bvalue::Int(-1));
    assert_eq!(
        Torrent::from_bencode(&Bvalue::Dict(entries)),
        Err(TorrentFromBencodeError::PieceLengthOutOfRange)
    );
}

#[test]
fn negative_file_length_is_rejected() {
    let files = vec![file_entry(-1, vec!["x"])];
    assert_eq!(
        Torrent::from_bencode(&Bvalue::Dict(multi_file_entries(files))),
        Err(TorrentFromBencodeError::FileLengthOutOfRange)
    );
}

#[test]
fn empty_file_path_is_rejected() {
    let files = vec![file_entry(1, vec![])];
    assert_eq!(
        Torrent::from_bencode(&Bvalue::Dict(multi_file_entries(files))),
        Err(TorrentFromBencodeError::EmptyFilePath)
    );
}
