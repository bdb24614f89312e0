//! Decoding straight from bencoded bytes, through the external parser.

use dottorrent::FromBufferError;
use dottorrent::Torrent;
use dottorrent::TorrentDirTreeNode;
use dottorrent::TorrentFromBencodeError;

#[test]
fn bencoded_single_file_descriptor_decodes() {
    let mut blob = Vec::new();
    blob.extend_from_slice(b"d");
    blob.extend_from_slice(b"8:announce9:http://x/");
    blob.extend_from_slice(b"6:lengthi5e");
    blob.extend_from_slice(b"4:name5:a.txt");
    blob.extend_from_slice(b"12:piece lengthi16384e");
    blob.extend_from_slice(b"6:pieces20:");
    blob.extend_from_slice(&[3u8; 20]);
    blob.extend_from_slice(b"e");
    let t = Torrent::from_buffer(&blob).unwrap();
    assert_eq!(t.filename, "a.txt");
    assert_eq!(t.piece_length, 16384);
    assert_eq!(t.contents, TorrentDirTreeNode::FileNode(5));
    assert_eq!(t.trackers, vec![vec!["http://x/".to_string()]]);
    assert_eq!(t.pieces.len(), 1);
    assert_eq!(t.pieces[0].hash, [3u8; 20]);
}

#[test]
fn tracker_urls_are_normalized() {
    // The URL parser, not the decoder, decides the serialized form; an
    // upper-case scheme and host come back normalized.
    let mut blob = Vec::new();
    blob.extend_from_slice(b"d");
    blob.extend_from_slice(b"8:announce22:HTTP://EXAMPLE.com/Abc");
    blob.extend_from_slice(b"6:lengthi5e");
    blob.extend_from_slice(b"4:name5:a.txt");
    blob.extend_from_slice(b"12:piece lengthi16384e");
    blob.extend_from_slice(b"6:pieces20:");
    blob.extend_from_slice(&[3u8; 20]);
    blob.extend_from_slice(b"e");
    let t = Torrent::from_buffer(&blob).unwrap();
    assert_eq!(t.trackers, vec![vec!["http://example.com/Abc".to_string()]]);
}

#[test]
fn invalid_bencode_is_distinguished_from_schema_errors() {
    assert_eq!(
        Torrent::from_buffer(b"not bencode"),
        Err(FromBufferError::InvalidBencode)
    );
    assert_eq!(
        Torrent::from_buffer(b""),
        Err(FromBufferError::InvalidBencode)
    );
    assert_eq!(
        Torrent::from_buffer(b"i5e"),
        Err(FromBufferError::FromBencode(
            TorrentFromBencodeError::NotADict
        ))
    );
}

#[test]
fn truncated_containers_are_invalid_bencode() {
    // Input ending inside an unclosed list or dictionary must be rejected,
    // not handed to the parser.
    for blob in [
        &b"l"[..],
        &b"d"[..],
        &b"li1e"[..],
        &b"d3:foo"[..],
        &b"lli1e"[..],
        &b"d3:fooi1e"[..],
    ] {
        assert_eq!(
            Torrent::from_buffer(blob),
            Err(FromBufferError::InvalidBencode)
        );
    }
}

#[test]
fn oversized_number_tokens_are_invalid_bencode() {
    // A twenty-digit integer token does not fit the wire format's signed
    // 64-bit numbers; a length prefix far past the end of the input cannot
    // be satisfied.  Neither reaches the parser.
    assert_eq!(
        Torrent::from_buffer(b"i99999999999999999999e"),
        Err(FromBufferError::InvalidBencode)
    );
    assert_eq!(
        Torrent::from_buffer(b"999999999999:x"),
        Err(FromBufferError::InvalidBencode)
    );
}

#[test]
fn trailing_data_is_invalid_bencode() {
    assert_eq!(
        Torrent::from_buffer(b"i1ei2e"),
        Err(FromBufferError::InvalidBencode)
    );
}

#[test]
fn bencoded_announce_list_decodes() {
    let mut blob = Vec::new();
    blob.extend_from_slice(b"d");
    blob.extend_from_slice(b"13:announce-listll9:http://a/9:http://b/el9:http://c/ee");
    blob.extend_from_slice(b"6:lengthi5e");
    blob.extend_from_slice(b"4:name5:a.txt");
    blob.extend_from_slice(b"12:piece lengthi16384e");
    blob.extend_from_slice(b"6:pieces20:");
    blob.extend_from_slice(&[3u8; 20]);
    blob.extend_from_slice(b"e");
    let t = Torrent::from_buffer(&blob).unwrap();
    assert_eq!(
        t.trackers,
        vec![
            vec!["http://a/".to_string(), "http://b/".to_string()],
            vec!["http://c/".to_string()],
        ]
    );
}

#[test]
fn schema_violation_in_bencoded_dict_is_reported() {
    assert_eq!(
        Torrent::from_buffer(b"d4:name5:a.txte"),
        Err(FromBufferError::FromBencode(
            TorrentFromBencodeError::PieceLengthNotPresent
        ))
    );
}
