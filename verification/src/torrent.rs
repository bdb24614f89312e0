//! The decoded descriptor model and the decoder itself.

use vstd::prelude::*;
use vstd::string::StringSliceAdditionalSpecFns;
use vstd::utf8::decode_utf8;
use vstd::utf8::valid_utf8;

use crate::bvalue::dict_find;
use crate::bvalue::dict_get;
use crate::bvalue::dict_view;
use crate::bvalue::lemma_deep_push;
use crate::bvalue::lemma_try_map_err;
use crate::bvalue::lemma_try_map_ok;
use crate::bvalue::lemma_view_dict;
use crate::bvalue::lemma_view_list;
use crate::bvalue::list_view;
use crate::bvalue::try_map;
use crate::bvalue::Bvalue;
use crate::bvalue::BvalueV;
use crate::hash::Sha1Hash;
use crate::outside::host_parsed;
use crate::outside::url_parsed;

verus! {

use TorrentFromBencodeError as TfbError;

/// A decoded torrent descriptor.
#[derive(Debug, PartialEq)]
pub struct Torrent {
    /// Tracker URLs divided into tiers; tier order and within-tier order are
    /// both kept exactly as read.
    pub trackers: Vec<Vec<String>>,
    /// Peer address hints, each a `(host, port)` pair.
    pub nodes: Vec<(String, u16)>,
    /// Locations the content can be fetched from over plain HTTP.
    pub httpseeds: Vec<String>,
    /// A single alternate download URL, when present.
    pub urllist: Option<String>,
    /// Whether the descriptor marks the torrent private.
    pub private: bool,
    /// The length of one piece in bytes.
    pub piece_length: u64,
    /// One digest per piece, in order.
    pub pieces: Vec<Sha1Hash>,
    /// The root digest of a Merkle hash tree over the pieces, when present.
    pub merkle_root: Option<Sha1Hash>,
    /// The suggested root file or directory name.
    pub filename: String,
    /// The directory structure of the described content.
    pub contents: TorrentDirTreeNode,
}

/// A node in a directory structure.
#[derive(Debug, PartialEq)]
pub enum TorrentDirTreeNode {
    /// A file of the given size in bytes.
    FileNode(u64),
    /// A directory: named children in the order they were first created.
    /// Names within one directory are unique.
    DirNode(Vec<(String, TorrentDirTreeNode)>),
}

/// The mathematical shape of a [`TorrentDirTreeNode`].
pub enum NodeModel {
    File(u64),
    Dir(Seq<(Seq<char>, NodeModel)>),
}

/// The mathematical shape of a [`TorrentDirTreeNode`], written as a
/// standalone recursion so that its termination measure is the node itself.
pub open spec fn node_view(n: TorrentDirTreeNode) -> NodeModel
    decreases n,
{
    match n {
        TorrentDirTreeNode::FileNode(size) => NodeModel::File(size),
        TorrentDirTreeNode::DirNode(entries) => NodeModel::Dir(
            Seq::new(
                entries@.len(),
                |i: int|
                    if 0 <= i < entries@.len() {
                        proof {
                            assert(decreases_to!(n => entries));
                            assert(decreases_to!(entries => entries@));
                            assert(decreases_to!(entries@ => entries@[i]));
                            assert(decreases_to!(entries@[i] => entries@[i].1));
                        }
                        (entries@[i].0@, node_view(entries@[i].1))
                    } else {
                        (Seq::empty(), NodeModel::File(0))
                    },
            ),
        ),
    }
}

impl View for TorrentDirTreeNode {
    type V = NodeModel;

    open spec fn view(&self) -> NodeModel {
        node_view(*self)
    }
}

impl DeepView for TorrentDirTreeNode {
    type V = NodeModel;

    open spec fn deep_view(&self) -> NodeModel {
        self.view()
    }
}

/// The mathematical shape of a decoded [`Torrent`].
pub ghost struct TorrentModel {
    pub trackers: Seq<Seq<Seq<char>>>,
    pub nodes: Seq<(Seq<char>, u16)>,
    pub httpseeds: Seq<Seq<char>>,
    pub urllist: Option<Seq<char>>,
    pub private: bool,
    pub piece_length: u64,
    pub pieces: Seq<Seq<u8>>,
    pub merkle_root: Option<Seq<u8>>,
    pub filename: Seq<char>,
    pub contents: NodeModel,
}

impl View for Torrent {
    type V = TorrentModel;

    open spec fn view(&self) -> TorrentModel {
        TorrentModel {
            trackers: self.trackers.deep_view(),
            nodes: self.nodes.deep_view(),
            httpseeds: self.httpseeds.deep_view(),
            urllist: self.urllist.deep_view(),
            private: self.private,
            piece_length: self.piece_length,
            pieces: self.pieces.deep_view(),
            merkle_root: self.merkle_root.deep_view(),
            filename: self.filename@,
            contents: self.contents@,
        }
    }
}

/// Every way a value tree can fail to be a torrent descriptor.  Each variant
/// names one field and one kind of violation; the decoder returns the first
/// violation it meets in its single top-down pass.
#[derive(Clone, Copy, Debug, PartialEq, Eq, Structural)]
pub enum TorrentFromBencodeError {
    NotADict,
    AnnounceListNotAList,
    AnnounceListTierNotAList,
    TrackerUrlNotAString,
    TrackerUrlParseError,
    TrackerUrlInvalidUtf8,
    AnnounceUrlNotAString,
    AnnounceUrlParseError,
    AnnounceUrlInvalidUtf8,
    NodeListNotAList,
    NodeNotAList,
    NodeHostNotAString,
    NodeHostParseError,
    NodeHostInvalidUtf8,
    NodePortNotANumber,
    NodePortOutOfRange,
    NodeInvalidList,
    UrlListNotAString,
    UrlListParseError,
    UrlListInvalidUtf8,
    HttpSeedsNotAList,
    HttpSeedNotAString,
    HttpSeedParseError,
    HttpSeedInvalidUtf8,
    InfoDictNotADict,
    RootHashNotAString,
    RootHashInvalidHashLength(usize),
    PrivateFlagNotANumber,
    NameNotAString,
    NameInvalidUtf8,
    NameNotPresent,
    PieceLengthNotANumber,
    PieceLengthOutOfRange,
    PieceLengthNotPresent,
    InvalidPiecesLength(usize),
    PiecesNotAString,
    PiecesNotPresent,
    LengthNotANumber,
    LengthOutOfRange,
    FilesNotAList,
    NietherLengthOrFilesPresent,
    FileInfoNotADict,
    FileLengthNotANumber,
    FileLengthOutOfRange,
    FileLengthNotPresent,
    FilePathNotAList,
    FilePathNotPresent,
    DirNameNotAString,
    DirNameInvalidUtf8,
    FileNameNotAString,
    FileNameInvalidUtf8,
    EmptyFilePath,
    DuplicateFileName,
}

/// Failure of [`Torrent::from_buffer`]: either the bytes are not valid
/// bencode at all, or they are and the value tree is not a torrent
/// descriptor.
#[derive(Clone, Copy, Debug, PartialEq, Eq, Structural)]
pub enum FromBufferError {
    /// The bytes could not be parsed as bencode.
    InvalidBencode,
    /// The value tree does not conform to the descriptor schema.
    FromBencode(TorrentFromBencodeError),
}

/// The result of a fallible computation, with the computed value replaced by
/// its mathematical shape.
pub open spec fn res_dview<T: DeepView, E>(r: Result<T, E>) -> Result<T::V, E> {
    match r {
        Ok(t) => Ok(t.deep_view()),
        Err(e) => Err(e),
    }
}

/// One URL field: a byte string whose UTF-8 decoding parses as a URL.  The
/// three error values name the field the caller is reading.
pub open spec fn spec_url_field(
    b: BvalueV,
    not_str: TfbError,
    bad_utf8: TfbError,
    bad_url: TfbError,
) -> Result<Seq<char>, TfbError> {
    match b {
        BvalueV::Bytes(s) => if !valid_utf8(s) {
            Err(bad_utf8)
        } else {
            match url_parsed(decode_utf8(s)) {
                Some(u) => Ok(u),
                None => Err(bad_url),
            }
        },
        _ => Err(not_str),
    }
}

/// The mapping applied to each entry of a tracker tier.
pub open spec fn tracker_url_fn() -> spec_fn(BvalueV) -> Result<Seq<char>, TfbError> {
    |t: BvalueV|
        spec_url_field(
            t,
            TfbError::TrackerUrlNotAString,
            TfbError::TrackerUrlInvalidUtf8,
            TfbError::TrackerUrlParseError,
        )
}

/// One tracker tier: a list of URL byte strings.
pub open spec fn spec_tier(b: BvalueV) -> Result<Seq<Seq<char>>, TfbError> {
    match b {
        BvalueV::List(ts) => try_map(ts, tracker_url_fn()),
        _ => Err(TfbError::AnnounceListTierNotAList),
    }
}

/// The mapping applied to each tier of an announce list.
pub open spec fn tier_fn() -> spec_fn(BvalueV) -> Result<Seq<Seq<char>>, TfbError> {
    |t: BvalueV| spec_tier(t)
}

/// Tracker resolution.  A present `announce-list` is used verbatim, even when
/// it holds no tiers, and the singular `announce` field is then not read at
/// all; with no `announce-list`, a present `announce` yields one tier of one
/// URL; with neither, there are no trackers.
pub open spec fn spec_trackers(d: Seq<(Seq<u8>, BvalueV)>) -> Result<
    Seq<Seq<Seq<char>>>,
    TfbError,
> {
    match dict_get(d, ("announce-list").spec_bytes()) {
        Some(al) => match al {
            BvalueV::List(tiers) => try_map(tiers, tier_fn()),
            _ => Err(TfbError::AnnounceListNotAList),
        },
        None => match dict_get(d, ("announce").spec_bytes()) {
            Some(a) => match spec_url_field(
                a,
                TfbError::AnnounceUrlNotAString,
                TfbError::AnnounceUrlInvalidUtf8,
                TfbError::AnnounceUrlParseError,
            ) {
                Ok(u) => Ok(seq![seq![u]]),
                Err(e) => Err(e),
            },
            None => Ok(Seq::empty()),
        },
    }
}

/// One peer hint: a two-element list of a host byte string and a port number
/// that fits sixteen unsigned bits.
pub open spec fn spec_node(b: BvalueV) -> Result<(Seq<char>, u16), TfbError> {
    match b {
        BvalueV::List(parts) => if parts.len() != 2 {
            Err(TfbError::NodeInvalidList)
        } else {
            match parts[0] {
                BvalueV::Bytes(hb) => if !valid_utf8(hb) {
                    Err(TfbError::NodeHostInvalidUtf8)
                } else {
                    match host_parsed(decode_utf8(hb)) {
                        Some(h) => match parts[1] {
                            BvalueV::Int(p) => if 0 <= p <= u16::MAX {
                                Ok((h, p as u16))
                            } else {
                                Err(TfbError::NodePortOutOfRange)
                            },
                            _ => Err(TfbError::NodePortNotANumber),
                        },
                        None => Err(TfbError::NodeHostParseError),
                    }
                },
                _ => Err(TfbError::NodeHostNotAString),
            }
        },
        _ => Err(TfbError::NodeNotAList),
    }
}

/// The mapping applied to each entry of the `nodes` list.
pub open spec fn node_fn() -> spec_fn(BvalueV) -> Result<(Seq<char>, u16), TfbError> {
    |n: BvalueV| spec_node(n)
}

/// The optional `nodes` field; absent means no peer hints.
pub open spec fn spec_nodes(d: Seq<(Seq<u8>, BvalueV)>) -> Result<
    Seq<(Seq<char>, u16)>,
    TfbError,
> {
    match dict_get(d, ("nodes").spec_bytes()) {
        Some(nl) => match nl {
            BvalueV::List(ns) => try_map(ns, node_fn()),
            _ => Err(TfbError::NodeListNotAList),
        },
        None => Ok(Seq::empty()),
    }
}

/// The optional `url-list` field: at most one URL.
pub open spec fn spec_urllist(d: Seq<(Seq<u8>, BvalueV)>) -> Result<
    Option<Seq<char>>,
    TfbError,
> {
    match dict_get(d, ("url-list").spec_bytes()) {
        Some(b) => match spec_url_field(
            b,
            TfbError::UrlListNotAString,
            TfbError::UrlListInvalidUtf8,
            TfbError::UrlListParseError,
        ) {
            Ok(u) => Ok(Some(u)),
            Err(e) => Err(e),
        },
        None => Ok(None),
    }
}

/// The mapping applied to each entry of the `httpseeds` list.
pub open spec fn httpseed_fn() -> spec_fn(BvalueV) -> Result<Seq<char>, TfbError> {
    |h: BvalueV|
        spec_url_field(
            h,
            TfbError::HttpSeedNotAString,
            TfbError::HttpSeedInvalidUtf8,
            TfbError::HttpSeedParseError,
        )
}

/// The optional `httpseeds` field; absent means no HTTP seeds.
pub open spec fn spec_httpseeds(d: Seq<(Seq<u8>, BvalueV)>) -> Result<Seq<Seq<char>>, TfbError> {
    match dict_get(d, ("httpseeds").spec_bytes()) {
        Some(hl) => match hl {
            BvalueV::List(hs) => try_map(hs, httpseed_fn()),
            _ => Err(TfbError::HttpSeedsNotAList),
        },
        None => Ok(Seq::empty()),
    }
}

/// Selection of the info dictionary: a present `info` key must hold a
/// dictionary; with no `info` key the top-level dictionary itself is reused,
/// a compatibility quirk for nonstandard descriptors.
pub open spec fn spec_info(d: Seq<(Seq<u8>, BvalueV)>) -> Result<
    Seq<(Seq<u8>, BvalueV)>,
    TfbError,
> {
    match dict_get(d, ("info").spec_bytes()) {
        Some(i) => match i {
            BvalueV::Dict(id) => Ok(id),
            _ => Err(TfbError::InfoDictNotADict),
        },
        None => Ok(d),
    }
}

/// The optional `root hash` field: a byte string of exactly 20 bytes.
pub open spec fn spec_merkle(info: Seq<(Seq<u8>, BvalueV)>) -> Result<Option<Seq<u8>>, TfbError> {
    match dict_get(info, ("root hash").spec_bytes()) {
        Some(mr) => match mr {
            BvalueV::Bytes(h) => if h.len() == 20 {
                Ok(Some(h))
            } else {
                Err(TfbError::RootHashInvalidHashLength(h.len() as usize))
            },
            _ => Err(TfbError::RootHashNotAString),
        },
        None => Ok(None),
    }
}

/// The optional `private` flag: true exactly when the integer is nonzero,
/// false when the field is absent.
pub open spec fn spec_private(info: Seq<(Seq<u8>, BvalueV)>) -> Result<bool, TfbError> {
    match dict_get(info, ("private").spec_bytes()) {
        Some(p) => match p {
            BvalueV::Int(n) => Ok(n != 0),
            _ => Err(TfbError::PrivateFlagNotANumber),
        },
        None => Ok(false),
    }
}

/// The required `name` field: a byte string holding valid UTF-8.
pub open spec fn spec_name(info: Seq<(Seq<u8>, BvalueV)>) -> Result<Seq<char>, TfbError> {
    match dict_get(info, ("name").spec_bytes()) {
        Some(n) => match n {
            BvalueV::Bytes(nb) => if valid_utf8(nb) {
                Ok(decode_utf8(nb))
            } else {
                Err(TfbError::NameInvalidUtf8)
            },
            _ => Err(TfbError::NameNotAString),
        },
        None => Err(TfbError::NameNotPresent),
    }
}

/// The required `piece length` field: an integer in the unsigned 64-bit
/// range.
pub open spec fn spec_piece_length(info: Seq<(Seq<u8>, BvalueV)>) -> Result<u64, TfbError> {
    match dict_get(info, ("piece length").spec_bytes()) {
        Some(pl) => match pl {
            BvalueV::Int(n) => if 0 <= n <= u64::MAX {
                Ok(n as u64)
            } else {
                Err(TfbError::PieceLengthOutOfRange)
            },
            _ => Err(TfbError::PieceLengthNotANumber),
        },
        None => Err(TfbError::PieceLengthNotPresent),
    }
}

/// The required `pieces` field: a byte string whose length is an exact
/// multiple of 20, sliced into consecutive 20-byte digests in order.
pub open spec fn spec_pieces(info: Seq<(Seq<u8>, BvalueV)>) -> Result<Seq<Seq<u8>>, TfbError> {
    match dict_get(info, ("pieces").spec_bytes()) {
        Some(p) => match p {
            BvalueV::Bytes(pb) => if pb.len() % 20 == 0 {
                Ok(Seq::new(pb.len() / 20, |i: int| pb.subrange(20 * i, 20 * i + 20)))
            } else {
                Err(TfbError::InvalidPiecesLength(pb.len() as usize))
            },
            _ => Err(TfbError::PiecesNotAString),
        },
        None => Err(TfbError::PiecesNotPresent),
    }
}

/// The first directory entry carrying `name`, if any.
pub open spec fn dir_find(d: Seq<(Seq<char>, NodeModel)>, name: Seq<char>) -> Option<int>
    decreases d.len(),
{
    if d.len() == 0 {
        None
    } else if d[0].0 == name {
        Some(0)
    } else {
        match dir_find(d.drop_first(), name) {
            Some(j) => Some(j + 1),
            None => None,
        }
    }
}

proof fn lemma_dir_find_found(d: Seq<(Seq<char>, NodeModel)>, name: Seq<char>, i: int)
    requires
        0 <= i < d.len(),
        d[i].0 == name,
        forall|j: int| 0 <= j < i ==> #[trigger] d[j].0 != name,
    ensures
        dir_find(d, name) == Some(i),
    decreases i,
{
    if i > 0 {
        assert(d[0].0 != name);
        assert forall|j: int| 0 <= j < i - 1 implies #[trigger] d.drop_first()[j].0 != name by {
            assert(d.drop_first()[j] == d[j + 1]);
        }
        lemma_dir_find_found(d.drop_first(), name, i - 1);
    }
}

proof fn lemma_dir_find_absent(d: Seq<(Seq<char>, NodeModel)>, name: Seq<char>)
    requires
        forall|j: int| 0 <= j < d.len() ==> #[trigger] d[j].0 != name,
    ensures
        dir_find(d, name) is None,
    decreases d.len(),
{
    if d.len() > 0 {
        assert(d[0].0 != name);
        assert forall|j: int| 0 <= j < d.len() - 1 implies #[trigger] d.drop_first()[j].0
            != name by {
            assert(d.drop_first()[j] == d[j + 1]);
        }
        lemma_dir_find_absent(d.drop_first(), name);
    }
}

proof fn lemma_dir_find_some(d: Seq<(Seq<char>, NodeModel)>, name: Seq<char>, j: int)
    requires
        dir_find(d, name) == Some(j),
    ensures
        0 <= j < d.len(),
        d[j].0 == name,
    decreases d.len(),
{
    if d.len() > 0 && d[0].0 != name {
        lemma_dir_find_some(d.drop_first(), name, j - 1);
        assert(d.drop_first()[j - 1] == d[j]);
    }
}

/// Names within one sequence of directory entries are pairwise distinct.
pub open spec fn entries_unique(d: Seq<(Seq<char>, NodeModel)>) -> bool {
    forall|i: int, j: int| 0 <= i < j < d.len() ==> d[i].0 != d[j].0
}

/// Well-formedness of a directory tree: within every directory, each name
/// resolves to exactly one child.
pub open spec fn node_wf(n: NodeModel) -> bool
    decreases n,
{
    match n {
        NodeModel::File(_) => true,
        NodeModel::Dir(entries) => entries_unique(entries) && (forall|i: int|
            0 <= i < entries.len() ==> node_wf(#[trigger] entries[i].1)),
    }
}

proof fn lemma_dir_find_none(d: Seq<(Seq<char>, NodeModel)>, name: Seq<char>)
    requires
        dir_find(d, name) is None,
    ensures
        forall|j: int| 0 <= j < d.len() ==> #[trigger] d[j].0 != name,
    decreases d.len(),
{
    if d.len() > 0 {
        lemma_dir_find_none(d.drop_first(), name);
        assert forall|j: int| 0 <= j < d.len() implies #[trigger] d[j].0 != name by {
            if j > 0 {
                assert(d.drop_first()[j - 1] == d[j]);
            }
        }
    }
}

/// Insertion of one file of size `flen` under the path `comps` into a
/// directory's entries.  Every component but the last names a directory that
/// is looked up, or lazily created at the end of the entry order; descending
/// into a name held by a file, or placing the leaf under a name already
/// taken, is a collision.
pub open spec fn spec_insert(
    dir: Seq<(Seq<char>, NodeModel)>,
    comps: Seq<BvalueV>,
    flen: u64,
) -> Result<Seq<(Seq<char>, NodeModel)>, TfbError>
    decreases comps.len(),
{
    if comps.len() == 0 {
        Err(TfbError::EmptyFilePath)
    } else if comps.len() == 1 {
        match comps[0] {
            BvalueV::Bytes(nb) => if !valid_utf8(nb) {
                Err(TfbError::FileNameInvalidUtf8)
            } else if dir_find(dir, decode_utf8(nb)) is Some {
                Err(TfbError::DuplicateFileName)
            } else {
                Ok(dir.push((decode_utf8(nb), NodeModel::File(flen))))
            },
            _ => Err(TfbError::FileNameNotAString),
        }
    } else {
        match comps[0] {
            BvalueV::Bytes(nb) => if !valid_utf8(nb) {
                Err(TfbError::DirNameInvalidUtf8)
            } else {
                let name = decode_utf8(nb);
                match dir_find(dir, name) {
                    None => match spec_insert(Seq::empty(), comps.drop_first(), flen) {
                        Ok(sub) => Ok(dir.push((name, NodeModel::Dir(sub)))),
                        Err(e) => Err(e),
                    },
                    Some(j) => match dir[j].1 {
                        NodeModel::File(_) => Err(TfbError::DuplicateFileName),
                        NodeModel::Dir(sub) => match spec_insert(sub, comps.drop_first(), flen) {
                            Ok(sub2) => Ok(dir.update(j, (name, NodeModel::Dir(sub2)))),
                            Err(e) => Err(e),
                        },
                    },
                }
            },
            _ => Err(TfbError::DirNameNotAString),
        }
    }
}

proof fn lemma_insert_preserves_wf(dir: Seq<(Seq<char>, NodeModel)>, comps: Seq<BvalueV>, flen: u64)
    requires
        node_wf(NodeModel::Dir(dir)),
    ensures
        spec_insert(dir, comps, flen) matches Ok(d2) ==> node_wf(NodeModel::Dir(d2)),
    decreases comps.len(),
{
    if comps.len() == 1 {
        match comps[0] {
            BvalueV::Bytes(nb) => {
                let name = decode_utf8(nb);
                if valid_utf8(nb) && dir_find(dir, name) is None {
                    lemma_dir_find_none(dir, name);
                    let d2 = dir.push((name, NodeModel::File(flen)));
                    assert forall|i: int, j: int| 0 <= i < j < d2.len() implies d2[i].0
                        != d2[j].0 by {
                        assert(d2[i] == dir[i]);
                        if j == d2.len() - 1 {
                            assert(d2[j].0 == name);
                        } else {
                            assert(d2[j] == dir[j]);
                        }
                    }
                    assert forall|i: int| 0 <= i < d2.len() implies node_wf(
                        #[trigger] d2[i].1,
                    ) by {
                        if i == d2.len() - 1 {
                            assert(d2[i].1 == NodeModel::File(flen));
                        } else {
                            assert(d2[i] == dir[i]);
                            assert(node_wf(dir[i].1));
                        }
                    }
                }
            },
            _ => {},
        }
    } else if comps.len() > 1 {
        match comps[0] {
            BvalueV::Bytes(nb) => {
                let name = decode_utf8(nb);
                if valid_utf8(nb) {
                    match dir_find(dir, name) {
                        None => {
                            lemma_dir_find_none(dir, name);
                            assert(node_wf(NodeModel::Dir(Seq::empty())));
                            lemma_insert_preserves_wf(Seq::empty(), comps.drop_first(), flen);
                            match spec_insert(Seq::empty(), comps.drop_first(), flen) {
                                Ok(sub) => {
                                    let d2 = dir.push((name, NodeModel::Dir(sub)));
                                    assert forall|i: int, j: int|
                                        0 <= i < j < d2.len() implies d2[i].0 != d2[j].0 by {
                                        assert(d2[i] == dir[i]);
                                        if j == d2.len() - 1 {
                                            assert(d2[j].0 == name);
                                        } else {
                                            assert(d2[j] == dir[j]);
                                        }
                                    }
                                    assert forall|i: int| 0 <= i < d2.len() implies node_wf(
                                        #[trigger] d2[i].1,
                                    ) by {
                                        if i == d2.len() - 1 {
                                            assert(d2[i].1 == NodeModel::Dir(sub));
                                        } else {
                                            assert(d2[i] == dir[i]);
                                            assert(node_wf(dir[i].1));
                                        }
                                    }
                                },
                                Err(_) => {},
                            }
                        },
                        Some(j) => {
                            lemma_dir_find_some(dir, name, j);
                            match dir[j].1 {
                                NodeModel::File(_) => {},
                                NodeModel::Dir(sub) => {
                                    assert(node_wf(dir[j].1));
                                    lemma_insert_preserves_wf(sub, comps.drop_first(), flen);
                                    match spec_insert(sub, comps.drop_first(), flen) {
                                        Ok(sub2) => {
                                            let d2 = dir.update(j, (name, NodeModel::Dir(sub2)));
                                            assert forall|a: int, b: int|
                                                0 <= a < b < d2.len() implies d2[a].0
                                                != d2[b].0 by {
                                                assert(d2[a].0 == dir[a].0);
                                                assert(d2[b].0 == dir[b].0);
                                            }
                                            assert forall|i: int|
                                                0 <= i < d2.len() implies node_wf(
                                                #[trigger] d2[i].1,
                                            ) by {
                                                if i == j {
                                                    assert(d2[i].1 == NodeModel::Dir(sub2));
                                                } else {
                                                    assert(d2[i] == dir[i]);
                                                    assert(node_wf(dir[i].1));
                                                }
                                            }
                                        },
                                        Err(_) => {},
                                    }
                                },
                            }
                        },
                    }
                }
            },
            _ => {},
        }
    }
}

/// One entry of the `files` list: a dictionary with a `length` in the
/// unsigned 64-bit range and a non-empty `path` list, folded into the
/// directory entries built so far.
pub open spec fn spec_file_entry(dir: Seq<(Seq<char>, NodeModel)>, f: BvalueV) -> Result<
    Seq<(Seq<char>, NodeModel)>,
    TfbError,
> {
    match f {
        BvalueV::Dict(fd) => match dict_get(fd, ("length").spec_bytes()) {
            Some(l) => match l {
                BvalueV::Int(n) => if 0 <= n <= u64::MAX {
                    match dict_get(fd, ("path").spec_bytes()) {
                        Some(p) => match p {
                            BvalueV::List(comps) => if comps.len() == 0 {
                                Err(TfbError::EmptyFilePath)
                            } else {
                                spec_insert(dir, comps, n as u64)
                            },
                            _ => Err(TfbError::FilePathNotAList),
                        },
                        None => Err(TfbError::FilePathNotPresent),
                    }
                } else {
                    Err(TfbError::FileLengthOutOfRange)
                },
                _ => Err(TfbError::FileLengthNotANumber),
            },
            None => Err(TfbError::FileLengthNotPresent),
        },
        _ => Err(TfbError::FileInfoNotADict),
    }
}

/// The `files` list folded entry by entry, left to right, into directory
/// entries; directories created for one entry are shared by later entries
/// with the same path prefix.
pub open spec fn spec_build_tree(
    files: Seq<BvalueV>,
    dir: Seq<(Seq<char>, NodeModel)>,
) -> Result<Seq<(Seq<char>, NodeModel)>, TfbError>
    decreases files.len(),
{
    if files.len() == 0 {
        Ok(dir)
    } else {
        match spec_file_entry(dir, files[0]) {
            Ok(d2) => spec_build_tree(files.drop_first(), d2),
            Err(e) => Err(e),
        }
    }
}

/// Content shape disambiguation: a present `length` makes the contents a
/// single file of that size, and the `files` key is then not consulted at
/// all; otherwise `files` must be present and the directory tree is built
/// from it.
pub open spec fn spec_contents(info: Seq<(Seq<u8>, BvalueV)>) -> Result<NodeModel, TfbError> {
    match dict_get(info, ("length").spec_bytes()) {
        Some(l) => match l {
            BvalueV::Int(n) => if 0 <= n <= u64::MAX {
                Ok(NodeModel::File(n as u64))
            } else {
                Err(TfbError::LengthOutOfRange)
            },
            _ => Err(TfbError::LengthNotANumber),
        },
        None => match dict_get(info, ("files").spec_bytes()) {
            Some(fl) => match fl {
                BvalueV::List(fs) => match spec_build_tree(fs, Seq::empty()) {
                    Ok(entries) => Ok(NodeModel::Dir(entries)),
                    Err(e) => Err(e),
                },
                _ => Err(TfbError::FilesNotAList),
            },
            None => Err(TfbError::NietherLengthOrFilesPresent),
        },
    }
}

/// The whole decode: a single top-down pass over a dictionary-rooted value
/// tree, aborted by the first violation.  Fields are read in the order
/// trackers, nodes, url-list, httpseeds, info, root hash, private, name,
/// piece length, pieces, contents.
pub open spec fn spec_decode(v: BvalueV) -> Result<TorrentModel, TfbError> {
    match v {
        BvalueV::Dict(d) => match spec_trackers(d) {
            Err(e) => Err(e),
            Ok(trackers) => match spec_nodes(d) {
                Err(e) => Err(e),
                Ok(nodes) => match spec_urllist(d) {
                    Err(e) => Err(e),
                    Ok(urllist) => match spec_httpseeds(d) {
                        Err(e) => Err(e),
                        Ok(httpseeds) => match spec_info(d) {
                            Err(e) => Err(e),
                            Ok(info) => match spec_merkle(info) {
                                Err(e) => Err(e),
                                Ok(merkle_root) => match spec_private(info) {
                                    Err(e) => Err(e),
                                    Ok(private) => match spec_name(info) {
                                        Err(e) => Err(e),
                                        Ok(filename) => match spec_piece_length(info) {
                                            Err(e) => Err(e),
                                            Ok(piece_length) => match spec_pieces(info) {
                                                Err(e) => Err(e),
                                                Ok(pieces) => match spec_contents(info) {
                                                    Err(e) => Err(e),
                                                    Ok(contents) => Ok(
                                                        TorrentModel {
                                                            trackers,
                                                            nodes,
                                                            httpseeds,
                                                            urllist,
                                                            private,
                                                            piece_length,
                                                            pieces,
                                                            merkle_root,
                                                            filename,
                                                            contents,
                                                        },
                                                    ),
                                                },
                                            },
                                        },
                                    },
                                },
                            },
                        },
                    },
                },
            },
        },
        _ => Err(TfbError::NotADict),
    }
}

proof fn lemma_file_entry_preserves_wf(dir: Seq<(Seq<char>, NodeModel)>, f: BvalueV)
    requires
        node_wf(NodeModel::Dir(dir)),
    ensures
        spec_file_entry(dir, f) matches Ok(d2) ==> node_wf(NodeModel::Dir(d2)),
{
    match f {
        BvalueV::Dict(fd) => match dict_get(fd, ("length").spec_bytes()) {
            Some(l) => match l {
                BvalueV::Int(n) => if 0 <= n <= u64::MAX {
                    match dict_get(fd, ("path").spec_bytes()) {
                        Some(p) => match p {
                            BvalueV::List(comps) => if comps.len() > 0 {
                                lemma_insert_preserves_wf(dir, comps, n as u64);
                            },
                            _ => {},
                        },
                        None => {},
                    }
                },
                _ => {},
            },
            None => {},
        },
        _ => {},
    }
}

proof fn lemma_build_tree_preserves_wf(files: Seq<BvalueV>, dir: Seq<(Seq<char>, NodeModel)>)
    requires
        node_wf(NodeModel::Dir(dir)),
    ensures
        spec_build_tree(files, dir) matches Ok(d2) ==> node_wf(NodeModel::Dir(d2)),
    decreases files.len(),
{
    if files.len() > 0 {
        lemma_file_entry_preserves_wf(dir, files[0]);
        match spec_file_entry(dir, files[0]) {
            Ok(d1) => {
                lemma_build_tree_preserves_wf(files.drop_first(), d1);
            },
            Err(_) => {},
        }
    }
}

/// A successful decode yields a well-formed directory tree: within every
/// directory of the contents, names are unique, so no name resolves both to
/// a file and to a directory.
pub proof fn lemma_decode_tree_wf(v: BvalueV)
    ensures
        spec_decode(v) matches Ok(m) ==> node_wf(m.contents),
{
    match v {
        BvalueV::Dict(d) => match spec_info(d) {
            Ok(info) => match dict_get(info, ("length").spec_bytes()) {
                Some(_) => {},
                None => match dict_get(info, ("files").spec_bytes()) {
                    Some(fl) => match fl {
                        BvalueV::List(fs) => {
                            assert(node_wf(NodeModel::Dir(Seq::empty())));
                            lemma_build_tree_preserves_wf(fs, Seq::empty());
                        },
                        _ => {},
                    },
                    None => {},
                },
            },
            Err(_) => {},
        },
        _ => {},
    }
}

/// A root value that is not a dictionary is rejected as `NotADict`, whatever
/// else it holds.
pub proof fn lemma_non_dict_rejected(v: BvalueV)
    requires
        !(v is Dict),
    ensures
        spec_decode(v) == Err::<TorrentModel, TfbError>(TfbError::NotADict),
{
}

/// With `announce-list` present, tracker resolution is decided by that list
/// alone: the singular `announce` field has no effect on the result, and an
/// empty list of tiers still wins and yields no trackers.
pub proof fn lemma_announce_list_wins(d: Seq<(Seq<u8>, BvalueV)>, tiers: Seq<BvalueV>)
    requires
        dict_get(d, ("announce-list").spec_bytes()) == Some(BvalueV::List(tiers)),
    ensures
        spec_trackers(d) == try_map(tiers, tier_fn()),
        tiers.len() == 0 ==> spec_trackers(d) == Ok::<Seq<Seq<Seq<char>>>, TfbError>(Seq::empty()),
{
}

/// With no `announce-list`, a single well-formed `announce` URL yields
/// exactly one tier holding exactly that URL.
pub proof fn lemma_announce_single(d: Seq<(Seq<u8>, BvalueV)>, ab: Seq<u8>)
    requires
        dict_get(d, ("announce-list").spec_bytes()) is None,
        dict_get(d, ("announce").spec_bytes()) == Some(BvalueV::Bytes(ab)),
        valid_utf8(ab),
    ensures
        url_parsed(decode_utf8(ab)) matches Some(u) ==> spec_trackers(d) == Ok::<
            Seq<Seq<Seq<char>>>,
            TfbError,
        >(seq![seq![u]]),
{
}

/// With every stage read before the info dictionary's required fields
/// succeeding, those fields decide the outcome: a missing `name` is
/// `NameNotPresent`; with a valid name, a `length` in the unsigned 64-bit
/// range makes the contents a file leaf of that size, whatever a `files`
/// key may hold; and with neither `length` nor `files` the result is
/// `NietherLengthOrFilesPresent`.  (Without the stage preconditions an
/// earlier field's violation is returned first, by the fail-fast order.)
pub proof fn lemma_required_info_fields(
    d: Seq<(Seq<u8>, BvalueV)>,
    info: Seq<(Seq<u8>, BvalueV)>,
)
    requires
        spec_trackers(d) is Ok,
        spec_nodes(d) is Ok,
        spec_urllist(d) is Ok,
        spec_httpseeds(d) is Ok,
        spec_info(d) == Ok::<Seq<(Seq<u8>, BvalueV)>, TfbError>(info),
        spec_merkle(info) is Ok,
        spec_private(info) is Ok,
        spec_piece_length(info) is Ok,
        spec_pieces(info) is Ok,
    ensures
        dict_get(info, ("name").spec_bytes()) is None ==> spec_decode(BvalueV::Dict(d)) == Err::<
            TorrentModel,
            TfbError,
        >(TfbError::NameNotPresent),
        dict_get(info, ("length").spec_bytes()) matches Some(lv) ==> (lv matches BvalueV::Int(n)
            ==> ((spec_name(info) is Ok && 0 <= n <= u64::MAX) ==> (spec_decode(BvalueV::Dict(d))
            matches Ok(m) && m.contents == NodeModel::File(n as u64)))),
        (spec_name(info) is Ok && dict_get(info, ("length").spec_bytes()) is None && dict_get(
            info,
            ("files").spec_bytes(),
        ) is None) ==> spec_decode(BvalueV::Dict(d)) == Err::<TorrentModel, TfbError>(
            TfbError::NietherLengthOrFilesPresent,
        ),
{
}

/// A single-file descriptor decodes successfully: with no tracker, node or
/// seed fields, a valid UTF-8 `name`, a `piece length`, a `pieces` blob of
/// exactly `20 * k` bytes and a `length`, the result has no trackers, a
/// file leaf of the given size as contents, the decoded name, and exactly
/// `k` digests sliced from the blob in original order.
pub proof fn lemma_single_file_decode(
    d: Seq<(Seq<u8>, BvalueV)>,
    name: Seq<u8>,
    plen: u64,
    pb: Seq<u8>,
    k: nat,
    flen: u64,
)
    requires
        dict_get(d, ("announce-list").spec_bytes()) is None,
        dict_get(d, ("announce").spec_bytes()) is None,
        dict_get(d, ("nodes").spec_bytes()) is None,
        dict_get(d, ("url-list").spec_bytes()) is None,
        dict_get(d, ("httpseeds").spec_bytes()) is None,
        dict_get(d, ("info").spec_bytes()) is None,
        dict_get(d, ("root hash").spec_bytes()) is None,
        dict_get(d, ("private").spec_bytes()) is None,
        dict_get(d, ("name").spec_bytes()) == Some(BvalueV::Bytes(name)),
        dict_get(d, ("piece length").spec_bytes()) == Some(BvalueV::Int(plen as int)),
        dict_get(d, ("pieces").spec_bytes()) == Some(BvalueV::Bytes(pb)),
        dict_get(d, ("length").spec_bytes()) == Some(BvalueV::Int(flen as int)),
        valid_utf8(name),
        pb.len() == 20 * k,
    ensures
        spec_decode(BvalueV::Dict(d)) matches Ok(m) && m.trackers == Seq::<
            Seq<Seq<char>>,
        >::empty() && m.contents == NodeModel::File(flen) && m.filename == decode_utf8(name)
            && m.piece_length == plen && m.pieces.len() == k && (forall|i: int|
            0 <= i < k ==> m.pieces[i] == pb.subrange(20 * i, 20 * i + 20)),
{
    assert(pb.len() % 20 == 0);
    assert(pb.len() / 20 == k);
}

/// Reads one URL field: a byte string, decoded as UTF-8, parsed as a URL.
fn url_field(b: &Bvalue, not_str: TfbError, bad_utf8: TfbError, bad_url: TfbError) -> (r: Result<
    String,
    TfbError,
>)
    ensures
        res_dview(r) == spec_url_field(b@, not_str, bad_utf8, bad_url),
{
    match b {
        Bvalue::Bytes(s) => match crate::outside::utf8_to_string(s.as_slice()) {
            Some(t) => match crate::outside::parse_url(t.as_str()) {
                Some(u) => Ok(u),
                None => Err(bad_url),
            },
            None => Err(bad_utf8),
        },
        _ => Err(not_str),
    }
}

/// Reads one tracker tier: a list of URL byte strings.
fn decode_tier(b: &Bvalue) -> (r: Result<Vec<String>, TfbError>)
    ensures
        res_dview(r) == spec_tier(b@),
{
    match b {
        Bvalue::List(ts) => {
            proof {
                lemma_view_list(*ts);
            }
            let ghost tv = list_view(ts);
            let ghost f = tracker_url_fn();
            let mut out: Vec<String> = Vec::new();
            let mut i: usize = 0;
            while i < ts.len()
                invariant
                    i <= ts@.len(),
                    tv == list_view(ts),
                    f == tracker_url_fn(),
                    spec_tier(b@) == try_map(tv, f),
                    out.deep_view().len() == i,
                    forall|j: int|
                        0 <= j < i ==> #[trigger] f(tv[j]) == Ok::<Seq<char>, TfbError>(
                            out.deep_view()[j],
                        ),
                decreases ts@.len() - i,
            {
                match url_field(
                    &ts[i],
                    TfbError::TrackerUrlNotAString,
                    TfbError::TrackerUrlInvalidUtf8,
                    TfbError::TrackerUrlParseError,
                ) {
                    Ok(u) => {
                        let ghost pre = out@;
                        let ghost pre_dv = out.deep_view();
                        let ghost ucopy = u;
                        out.push(u);
                        proof {
                            lemma_deep_push(&out, pre, pre_dv, ucopy);
                        }
                    },
                    Err(e) => {
                        proof {
                            lemma_try_map_err(tv, f, i as int);
                        }
                        return Err(e);
                    },
                }
                i += 1;
            }
            proof {
                lemma_try_map_ok(tv, f, out.deep_view());
            }
            Ok(out)
        },
        _ => Err(TfbError::AnnounceListTierNotAList),
    }
}

/// Resolves the trackers, as [`spec_trackers`] describes.
fn decode_trackers(d: &Vec<(Vec<u8>, Bvalue)>) -> (r: Result<Vec<Vec<String>>, TfbError>)
    ensures
        res_dview(r) == spec_trackers(dict_view(d)),
{
    match dict_find(d, "announce-list".as_bytes()) {
        Some(al) => match al {
            Bvalue::List(tiers) => {
                proof {
                    lemma_view_list(*tiers);
                }
                let ghost tv = list_view(tiers);
                let ghost f = tier_fn();
                let mut out: Vec<Vec<String>> = Vec::new();
                let mut i: usize = 0;
                while i < tiers.len()
                    invariant
                        i <= tiers@.len(),
                        tv == list_view(tiers),
                        f == tier_fn(),
                        spec_trackers(dict_view(d)) == try_map(tv, f),
                        out.deep_view().len() == i,
                        forall|j: int|
                            0 <= j < i ==> #[trigger] f(tv[j]) == Ok::<Seq<Seq<char>>, TfbError>(
                                out.deep_view()[j],
                            ),
                    decreases tiers@.len() - i,
                {
                    match decode_tier(&tiers[i]) {
                        Ok(t) => {
                            let ghost pre = out@;
                            let ghost pre_dv = out.deep_view();
                            let ghost tcopy = t;
                            out.push(t);
                            proof {
                                lemma_deep_push(&out, pre, pre_dv, tcopy);
                            }
                        },
                        Err(e) => {
                            proof {
                                lemma_try_map_err(tv, f, i as int);
                            }
                            return Err(e);
                        },
                    }
                    i += 1;
                }
                proof {
                    lemma_try_map_ok(tv, f, out.deep_view());
                }
                Ok(out)
            },
            _ => Err(TfbError::AnnounceListNotAList),
        },
        None => match dict_find(d, "announce".as_bytes()) {
            Some(a) => match url_field(
                a,
                TfbError::AnnounceUrlNotAString,
                TfbError::AnnounceUrlInvalidUtf8,
                TfbError::AnnounceUrlParseError,
            ) {
                Ok(u) => {
                    let ghost ucopy = u;
                    let mut tier: Vec<String> = Vec::new();
                    tier.push(u);
                    let ghost tiercopy = tier;
                    let mut out: Vec<Vec<String>> = Vec::new();
                    out.push(tier);
                    proof {
                        assert(tiercopy.deep_view() =~= seq![ucopy@]);
                        assert(out.deep_view() =~= seq![seq![ucopy@]]);
                    }
                    Ok(out)
                },
                Err(e) => Err(e),
            },
            None => {
                let out: Vec<Vec<String>> = Vec::new();
                proof {
                    assert(out.deep_view() =~= Seq::<Seq<Seq<char>>>::empty());
                }
                Ok(out)
            },
        },
    }
}

/// Reads one peer hint: a two-element list of host and port.
fn decode_node(b: &Bvalue) -> (r: Result<(String, u16), TfbError>)
    ensures
        res_dview(r) == spec_node(b@),
{
    match b {
        Bvalue::List(parts) => {
            proof {
                lemma_view_list(*parts);
            }
            if parts.len() != 2 {
                Err(TfbError::NodeInvalidList)
            } else {
                match &parts[0] {
                    Bvalue::Bytes(hb) => match crate::outside::utf8_to_string(hb.as_slice()) {
                        Some(hs) => match crate::outside::parse_host(hs.as_str()) {
                            Some(h) => match &parts[1] {
                                Bvalue::Int(p) => {
                                    let pv = *p;
                                    if 0 <= pv && pv <= 65535 {
                                        Ok((h, pv as u16))
                                    } else {
                                        Err(TfbError::NodePortOutOfRange)
                                    }
                                },
                                _ => Err(TfbError::NodePortNotANumber),
                            },
                            None => Err(TfbError::NodeHostParseError),
                        },
                        None => Err(TfbError::NodeHostInvalidUtf8),
                    },
                    _ => Err(TfbError::NodeHostNotAString),
                }
            }
        },
        _ => Err(TfbError::NodeNotAList),
    }
}

/// Reads the optional `nodes` list, as [`spec_nodes`] describes.
fn decode_nodes(d: &Vec<(Vec<u8>, Bvalue)>) -> (r: Result<Vec<(String, u16)>, TfbError>)
    ensures
        res_dview(r) == spec_nodes(dict_view(d)),
{
    match dict_find(d, "nodes".as_bytes()) {
        Some(nl) => match nl {
            Bvalue::List(ns) => {
                proof {
                    lemma_view_list(*ns);
                }
                let ghost nv = list_view(ns);
                let ghost f = node_fn();
                let mut out: Vec<(String, u16)> = Vec::new();
                let mut i: usize = 0;
                while i < ns.len()
                    invariant
                        i <= ns@.len(),
                        nv == list_view(ns),
                        f == node_fn(),
                        spec_nodes(dict_view(d)) == try_map(nv, f),
                        out.deep_view().len() == i,
                        forall|j: int|
                            0 <= j < i ==> #[trigger] f(nv[j]) == Ok::<(Seq<char>, u16), TfbError>(
                                out.deep_view()[j],
                            ),
                    decreases ns@.len() - i,
                {
                    match decode_node(&ns[i]) {
                        Ok(n) => {
                            let ghost pre = out@;
                            let ghost pre_dv = out.deep_view();
                            let ghost ncopy = n;
                            out.push(n);
                            proof {
                                lemma_deep_push(&out, pre, pre_dv, ncopy);
                            }
                        },
                        Err(e) => {
                            proof {
                                lemma_try_map_err(nv, f, i as int);
                            }
                            return Err(e);
                        },
                    }
                    i += 1;
                }
                proof {
                    lemma_try_map_ok(nv, f, out.deep_view());
                }
                Ok(out)
            },
            _ => Err(TfbError::NodeListNotAList),
        },
        None => {
            let out: Vec<(String, u16)> = Vec::new();
            proof {
                assert(out.deep_view() =~= Seq::<(Seq<char>, u16)>::empty());
            }
            Ok(out)
        },
    }
}

/// Reads the optional `url-list` field, as [`spec_urllist`] describes.
fn decode_urllist(d: &Vec<(Vec<u8>, Bvalue)>) -> (r: Result<Option<String>, TfbError>)
    ensures
        res_dview(r) == spec_urllist(dict_view(d)),
{
    match dict_find(d, "url-list".as_bytes()) {
        Some(b) => match url_field(
            b,
            TfbError::UrlListNotAString,
            TfbError::UrlListInvalidUtf8,
            TfbError::UrlListParseError,
        ) {
            Ok(u) => Ok(Some(u)),
            Err(e) => Err(e),
        },
        None => Ok(None),
    }
}

/// Reads the optional `httpseeds` list, as [`spec_httpseeds`] describes.
fn decode_httpseeds(d: &Vec<(Vec<u8>, Bvalue)>) -> (r: Result<Vec<String>, TfbError>)
    ensures
        res_dview(r) == spec_httpseeds(dict_view(d)),
{
    match dict_find(d, "httpseeds".as_bytes()) {
        Some(hl) => match hl {
            Bvalue::List(hs) => {
                proof {
                    lemma_view_list(*hs);
                }
                let ghost hv = list_view(hs);
                let ghost f = httpseed_fn();
                let mut out: Vec<String> = Vec::new();
                let mut i: usize = 0;
                while i < hs.len()
                    invariant
                        i <= hs@.len(),
                        hv == list_view(hs),
                        f == httpseed_fn(),
                        spec_httpseeds(dict_view(d)) == try_map(hv, f),
                        out.deep_view().len() == i,
                        forall|j: int|
                            0 <= j < i ==> #[trigger] f(hv[j]) == Ok::<Seq<char>, TfbError>(
                                out.deep_view()[j],
                            ),
                    decreases hs@.len() - i,
                {
                    match url_field(
                        &hs[i],
                        TfbError::HttpSeedNotAString,
                        TfbError::HttpSeedInvalidUtf8,
                        TfbError::HttpSeedParseError,
                    ) {
                        Ok(u) => {
                            let ghost pre = out@;
                            let ghost pre_dv = out.deep_view();
                            let ghost ucopy = u;
                            out.push(u);
                            proof {
                                lemma_deep_push(&out, pre, pre_dv, ucopy);
                            }
                        },
                        Err(e) => {
                            proof {
                                lemma_try_map_err(hv, f, i as int);
                            }
                            return Err(e);
                        },
                    }
                    i += 1;
                }
                proof {
                    lemma_try_map_ok(hv, f, out.deep_view());
                }
                Ok(out)
            },
            _ => Err(TfbError::HttpSeedsNotAList),
        },
        None => {
            let out: Vec<String> = Vec::new();
            proof {
                assert(out.deep_view() =~= Seq::<Seq<char>>::empty());
            }
            Ok(out)
        },
    }
}

/// Selects the info dictionary, as [`spec_info`] describes.
fn select_info<'a>(d: &'a Vec<(Vec<u8>, Bvalue)>) -> (r: Result<
    &'a Vec<(Vec<u8>, Bvalue)>,
    TfbError,
>)
    ensures
        match r {
            Ok(info) => spec_info(dict_view(d)) == Ok::<Seq<(Seq<u8>, BvalueV)>, TfbError>(
                dict_view(info),
            ),
            Err(e) => spec_info(dict_view(d)) == Err::<Seq<(Seq<u8>, BvalueV)>, TfbError>(e),
        },
{
    match dict_find(d, "info".as_bytes()) {
        Some(i) => match i {
            Bvalue::Dict(id) => {
                proof {
                    lemma_view_dict(*id);
                }
                Ok(id)
            },
            _ => Err(TfbError::InfoDictNotADict),
        },
        None => Ok(d),
    }
}

/// Reads the optional `root hash` digest, as [`spec_merkle`] describes.
fn decode_merkle(info: &Vec<(Vec<u8>, Bvalue)>) -> (r: Result<Option<Sha1Hash>, TfbError>)
    ensures
        res_dview(r) == spec_merkle(dict_view(info)),
{
    match dict_find(info, "root hash".as_bytes()) {
        Some(mr) => match mr {
            Bvalue::Bytes(h) => match Sha1Hash::from_buffer(h.as_slice()) {
                Ok(dig) => Ok(Some(dig)),
                Err(_) => Err(TfbError::RootHashInvalidHashLength(h.len())),
            },
            _ => Err(TfbError::RootHashNotAString),
        },
        None => Ok(None),
    }
}

/// Reads the optional `private` flag, as [`spec_private`] describes.
fn decode_private(info: &Vec<(Vec<u8>, Bvalue)>) -> (r: Result<bool, TfbError>)
    ensures
        res_dview(r) == spec_private(dict_view(info)),
{
    match dict_find(info, "private".as_bytes()) {
        Some(p) => match p {
            Bvalue::Int(n) => Ok(*n != 0),
            _ => Err(TfbError::PrivateFlagNotANumber),
        },
        None => Ok(false),
    }
}

/// Reads the required `name` field, as [`spec_name`] describes.
fn decode_name(info: &Vec<(Vec<u8>, Bvalue)>) -> (r: Result<String, TfbError>)
    ensures
        res_dview(r) == spec_name(dict_view(info)),
{
    match dict_find(info, "name".as_bytes()) {
        Some(n) => match n {
            Bvalue::Bytes(nb) => match crate::outside::utf8_to_string(nb.as_slice()) {
                Some(s) => Ok(s),
                None => Err(TfbError::NameInvalidUtf8),
            },
            _ => Err(TfbError::NameNotAString),
        },
        None => Err(TfbError::NameNotPresent),
    }
}

/// Reads the required `piece length` field, as [`spec_piece_length`]
/// describes.
fn decode_piece_length(info: &Vec<(Vec<u8>, Bvalue)>) -> (r: Result<u64, TfbError>)
    ensures
        res_dview(r) == spec_piece_length(dict_view(info)),
{
    match dict_find(info, "piece length".as_bytes()) {
        Some(pl) => match pl {
            Bvalue::Int(n) => if *n >= 0 {
                Ok(*n as u64)
            } else {
                Err(TfbError::PieceLengthOutOfRange)
            },
            _ => Err(TfbError::PieceLengthNotANumber),
        },
        None => Err(TfbError::PieceLengthNotPresent),
    }
}

/// Reads the required `pieces` blob and slices it into digests, as
/// [`spec_pieces`] describes.
fn decode_pieces(info: &Vec<(Vec<u8>, Bvalue)>) -> (r: Result<Vec<Sha1Hash>, TfbError>)
    ensures
        res_dview(r) == spec_pieces(dict_view(info)),
{
    match dict_find(info, "pieces".as_bytes()) {
        Some(p) => match p {
            Bvalue::Bytes(pb) => if pb.len() % 20 != 0 {
                Err(TfbError::InvalidPiecesLength(pb.len()))
            } else {
                let ghost chunks = Seq::new(
                    pb@.len() / 20,
                    |k: int| pb@.subrange(20 * k, 20 * k + 20),
                );
                let mut out: Vec<Sha1Hash> = Vec::new();
                let mut i: usize = 0;
                while i < pb.len()
                    invariant
                        pb@.len() % 20 == 0,
                        i % 20 == 0,
                        i <= pb@.len(),
                        chunks == Seq::new(
                            pb@.len() / 20,
                            |k: int| pb@.subrange(20 * k, 20 * k + 20),
                        ),
                        out.deep_view().len() == i / 20,
                        forall|k: int|
                            0 <= k < i / 20 ==> #[trigger] out.deep_view()[k] == chunks[k],
                    decreases pb@.len() - i,
                {
                    proof {
                        assert(i + 20 <= pb@.len());
                    }
                    let sub = vstd::slice::slice_subrange(pb.as_slice(), i, i + 20);
                    let dig = Sha1Hash::from_buffer(sub).unwrap();
                    let ghost pre = out@;
                    let ghost pre_dv = out.deep_view();
                    let ghost dcopy = dig;
                    out.push(dig);
                    proof {
                        lemma_deep_push(&out, pre, pre_dv, dcopy);
                        assert(20 * ((i / 20) as int) == i as int);
                        assert(chunks[i as int / 20] == pb@.subrange(i as int, i + 20));
                        assert(dcopy.deep_view() == chunks[i as int / 20]);
                    }
                    i += 20;
                }
                proof {
                    assert(out.deep_view() =~= chunks);
                }
                Ok(out)
            },
            _ => Err(TfbError::PiecesNotAString),
        },
        None => Err(TfbError::PiecesNotPresent),
    }
}

proof fn lemma_node_view_dir(entries: Vec<(String, TorrentDirTreeNode)>)
    ensures
        node_view(TorrentDirTreeNode::DirNode(entries)) == NodeModel::Dir(entries.deep_view()),
{
    let s = node_view(TorrentDirTreeNode::DirNode(entries))->Dir_0;
    assert(s =~= entries.deep_view());
}

/// Finds the first directory entry carrying `name`, as [`dir_find`]
/// describes.
fn find_entry(dir: &Vec<(String, TorrentDirTreeNode)>, name: &String) -> (r: Option<usize>)
    ensures
        match dir_find(dir.deep_view(), name@) {
            Some(j) => r matches Some(u) && u as int == j,
            None => r is None,
        },
{
    let mut i: usize = 0;
    while i < dir.len()
        invariant
            i <= dir@.len(),
            forall|j: int| 0 <= j < i ==> #[trigger] dir.deep_view()[j].0 != name@,
        decreases dir@.len() - i,
    {
        if dir[i].0 == *name {
            proof {
                lemma_dir_find_found(dir.deep_view(), name@, i as int);
            }
            return Some(i);
        }
        i += 1;
    }
    proof {
        lemma_dir_find_absent(dir.deep_view(), name@);
    }
    None
}

/// Inserts one file under the path components from `idx` on, as
/// [`spec_insert`] describes, taking the directory entries by value and
/// handing them back transformed.
fn insert_path(
    dir: Vec<(String, TorrentDirTreeNode)>,
    comps: &Vec<Bvalue>,
    idx: usize,
    flen: u64,
) -> (r: Result<Vec<(String, TorrentDirTreeNode)>, TfbError>)
    requires
        idx < comps@.len(),
    ensures
        match r {
            Ok(d2) => spec_insert(dir.deep_view(), list_view(comps).skip(idx as int), flen)
                == Ok::<Seq<(Seq<char>, NodeModel)>, TfbError>(d2.deep_view()),
            Err(e) => spec_insert(dir.deep_view(), list_view(comps).skip(idx as int), flen)
                == Err::<Seq<(Seq<char>, NodeModel)>, TfbError>(e),
        },
    decreases comps@.len() - idx,
{
    let ghost cs = list_view(comps).skip(idx as int);
    proof {
        assert(cs.len() == comps@.len() - idx);
        assert(cs[0] == list_view(comps)[idx as int]);
    }
    let c = &comps[idx];
    if idx == comps.len() - 1 {
        match c {
            Bvalue::Bytes(nb) => match crate::outside::utf8_to_string(nb.as_slice()) {
                Some(name) => match find_entry(&dir, &name) {
                    Some(_) => Err(TfbError::DuplicateFileName),
                    None => {
                        let ghost pre = dir@;
                        let ghost pre_dv = dir.deep_view();
                        let ghost namecopy = name;
                        let mut dir2 = dir;
                        dir2.push((name, TorrentDirTreeNode::FileNode(flen)));
                        proof {
                            lemma_deep_push(
                                &dir2,
                                pre,
                                pre_dv,
                                (namecopy, TorrentDirTreeNode::FileNode(flen)),
                            );
                        }
                        Ok(dir2)
                    },
                },
                None => Err(TfbError::FileNameInvalidUtf8),
            },
            _ => Err(TfbError::FileNameNotAString),
        }
    } else {
        match c {
            Bvalue::Bytes(nb) => match crate::outside::utf8_to_string(nb.as_slice()) {
                Some(name) => {
                    proof {
                        assert(cs.drop_first() =~= list_view(comps).skip(idx as int + 1));
                    }
                    match find_entry(&dir, &name) {
                        None => {
                            let empty: Vec<(String, TorrentDirTreeNode)> = Vec::new();
                            proof {
                                assert(empty.deep_view() =~= Seq::<(Seq<char>, NodeModel)>::empty());
                            }
                            match insert_path(empty, comps, idx + 1, flen) {
                                Ok(sub) => {
                                    let ghost pre = dir@;
                                    let ghost pre_dv = dir.deep_view();
                                    let ghost namecopy = name;
                                    let ghost subcopy = sub;
                                    let mut dir2 = dir;
                                    dir2.push((name, TorrentDirTreeNode::DirNode(sub)));
                                    proof {
                                        lemma_node_view_dir(subcopy);
                                        lemma_deep_push(
                                            &dir2,
                                            pre,
                                            pre_dv,
                                            (namecopy, TorrentDirTreeNode::DirNode(subcopy)),
                                        );
                                    }
                                    Ok(dir2)
                                },
                                Err(e) => Err(e),
                            }
                        },
                        Some(j) => {
                            proof {
                                lemma_dir_find_some(dir.deep_view(), name@, j as int);
                            }
                            let ghost pre_dv = dir.deep_view();
                            let mut dir2 = dir;
                            let entry = dir2.remove(j);
                            match entry.1 {
                                TorrentDirTreeNode::FileNode(_) => Err(
                                    TfbError::DuplicateFileName,
                                ),
                                TorrentDirTreeNode::DirNode(sub_entries) => {
                                    proof {
                                        lemma_node_view_dir(sub_entries);
                                    }
                                    let ghost sub_dv = sub_entries.deep_view();
                                    match insert_path(sub_entries, comps, idx + 1, flen) {
                                        Ok(sub2) => {
                                            let ghost namecopy = entry.0;
                                            let ghost sub2copy = sub2;
                                            dir2.insert(
                                                j,
                                                (entry.0, TorrentDirTreeNode::DirNode(sub2)),
                                            );
                                            proof {
                                                lemma_node_view_dir(sub2copy);
                                                assert forall|k: int|
                                                    0 <= k < dir2.deep_view().len() implies
                                                    dir2.deep_view()[k] == pre_dv.update(
                                                    j as int,
                                                    (
                                                        namecopy@,
                                                        NodeModel::Dir(sub2copy.deep_view()),
                                                    ),
                                                )[k] by {}
                                                assert(dir2.deep_view() =~= pre_dv.update(
                                                    j as int,
                                                    (
                                                        namecopy@,
                                                        NodeModel::Dir(sub2copy.deep_view()),
                                                    ),
                                                ));
                                            }
                                            Ok(dir2)
                                        },
                                        Err(e) => Err(e),
                                    }
                                },
                            }
                        },
                    }
                },
                None => Err(TfbError::DirNameInvalidUtf8),
            },
            _ => Err(TfbError::DirNameNotAString),
        }
    }
}

/// Folds one `files` entry into the directory entries, as
/// [`spec_file_entry`] describes.
fn decode_file_entry(dir: Vec<(String, TorrentDirTreeNode)>, f: &Bvalue) -> (r: Result<
    Vec<(String, TorrentDirTreeNode)>,
    TfbError,
>)
    ensures
        match r {
            Ok(d2) => spec_file_entry(dir.deep_view(), f@) == Ok::<
                Seq<(Seq<char>, NodeModel)>,
                TfbError,
            >(d2.deep_view()),
            Err(e) => spec_file_entry(dir.deep_view(), f@) == Err::<
                Seq<(Seq<char>, NodeModel)>,
                TfbError,
            >(e),
        },
{
    match f {
        Bvalue::Dict(fd) => {
            proof {
                lemma_view_dict(*fd);
            }
            match dict_find(fd, "length".as_bytes()) {
                Some(l) => match l {
                    Bvalue::Int(n) => if *n >= 0 {
                        let flen = *n as u64;
                        match dict_find(fd, "path".as_bytes()) {
                            Some(p) => match p {
                                Bvalue::List(comps) => {
                                    proof {
                                        lemma_view_list(*comps);
                                    }
                                    if comps.len() == 0 {
                                        Err(TfbError::EmptyFilePath)
                                    } else {
                                        proof {
                                            assert(list_view(comps).skip(0) =~= list_view(comps));
                                        }
                                        insert_path(dir, comps, 0, flen)
                                    }
                                },
                                _ => Err(TfbError::FilePathNotAList),
                            },
                            None => Err(TfbError::FilePathNotPresent),
                        }
                    } else {
                        Err(TfbError::FileLengthOutOfRange)
                    },
                    _ => Err(TfbError::FileLengthNotANumber),
                },
                None => Err(TfbError::FileLengthNotPresent),
            }
        },
        _ => Err(TfbError::FileInfoNotADict),
    }
}

/// Builds the contents of the descriptor, as [`spec_contents`] describes.
fn decode_contents(info: &Vec<(Vec<u8>, Bvalue)>) -> (r: Result<TorrentDirTreeNode, TfbError>)
    ensures
        res_dview(r) == spec_contents(dict_view(info)),
{
    match dict_find(info, "length".as_bytes()) {
        Some(l) => match l {
            Bvalue::Int(n) => if *n >= 0 {
                Ok(TorrentDirTreeNode::FileNode(*n as u64))
            } else {
                Err(TfbError::LengthOutOfRange)
            },
            _ => Err(TfbError::LengthNotANumber),
        },
        None => match dict_find(info, "files".as_bytes()) {
            Some(fl) => match fl {
                Bvalue::List(fs) => {
                    proof {
                        lemma_view_list(*fs);
                    }
                    let ghost fv = list_view(fs);
                    let mut dir: Vec<(String, TorrentDirTreeNode)> = Vec::new();
                    proof {
                        assert(dir.deep_view() =~= Seq::<(Seq<char>, NodeModel)>::empty());
                        assert(fv.skip(0) =~= fv);
                    }
                    let mut i: usize = 0;
                    while i < fs.len()
                        invariant
                            i <= fs@.len(),
                            fv == list_view(fs),
                            spec_contents(dict_view(info)) == (match spec_build_tree(
                                fv,
                                Seq::empty(),
                            ) {
                                Ok(entries) => Ok::<NodeModel, TfbError>(NodeModel::Dir(entries)),
                                Err(e) => Err::<NodeModel, TfbError>(e),
                            }),
                            spec_build_tree(fv, Seq::empty()) == spec_build_tree(
                                fv.skip(i as int),
                                dir.deep_view(),
                            ),
                        decreases fs@.len() - i,
                    {
                        let ghost pre_dv = dir.deep_view();
                        proof {
                            assert(fv.skip(i as int)[0] == fv[i as int]);
                            assert(fv.skip(i as int).drop_first() =~= fv.skip(i as int + 1));
                        }
                        match decode_file_entry(dir, &fs[i]) {
                            Ok(d2) => {
                                dir = d2;
                            },
                            Err(e) => {
                                return Err(e);
                            },
                        }
                        i += 1;
                    }
                    proof {
                        assert(fv.skip(fv.len() as int) =~= Seq::<BvalueV>::empty());
                    }
                    let ghost dircopy = dir;
                    let node = TorrentDirTreeNode::DirNode(dir);
                    proof {
                        lemma_node_view_dir(dircopy);
                    }
                    Ok(node)
                },
                _ => Err(TfbError::FilesNotAList),
            },
            None => Err(TfbError::NietherLengthOrFilesPresent),
        },
    }
}

impl Torrent {
    /// Decodes a descriptor from a bencode value tree, in one top-down pass:
    /// either the whole tree conforms to the schema and a complete
    /// [`Torrent`] is returned, or the first violation met is returned and
    /// nothing else escapes.  [`spec_decode`] states the result exactly.
    pub fn from_bencode(v: &Bvalue) -> (r: Result<Torrent, TorrentFromBencodeError>)
        ensures
            (match spec_decode(v@) {
                Ok(m) => r matches Ok(t) && t@ == m,
                Err(e) => r == Err::<Torrent, TorrentFromBencodeError>(e),
            }),
    {
        match v {
            Bvalue::Dict(d) => {
                proof {
                    lemma_view_dict(*d);
                }
                let trackers = match decode_trackers(d) {
                    Ok(x) => x,
                    Err(e) => return Err(e),
                };
                let nodes = match decode_nodes(d) {
                    Ok(x) => x,
                    Err(e) => return Err(e),
                };
                let urllist = match decode_urllist(d) {
                    Ok(x) => x,
                    Err(e) => return Err(e),
                };
                let httpseeds = match decode_httpseeds(d) {
                    Ok(x) => x,
                    Err(e) => return Err(e),
                };
                let info = match select_info(d) {
                    Ok(x) => x,
                    Err(e) => return Err(e),
                };
                let merkle_root = match decode_merkle(info) {
                    Ok(x) => x,
                    Err(e) => return Err(e),
                };
                let private = match decode_private(info) {
                    Ok(x) => x,
                    Err(e) => return Err(e),
                };
                let filename = match decode_name(info) {
                    Ok(x) => x,
                    Err(e) => return Err(e),
                };
                let piece_length = match decode_piece_length(info) {
                    Ok(x) => x,
                    Err(e) => return Err(e),
                };
                let pieces = match decode_pieces(info) {
                    Ok(x) => x,
                    Err(e) => return Err(e),
                };
                let contents = match decode_contents(info) {
                    Ok(x) => x,
                    Err(e) => return Err(e),
                };
                Ok(
                    Torrent {
                        trackers,
                        nodes,
                        httpseeds,
                        urllist,
                        private,
                        piece_length,
                        pieces,
                        merkle_root,
                        filename,
                        contents,
                    },
                )
            },
            _ => Err(TorrentFromBencodeError::NotADict),
        }
    }

    /// Parses a byte buffer with the external bencode parser and decodes the
    /// resulting value tree.  A buffer that is not valid bencode and a value
    /// tree that is not a descriptor stay distinguishable.
    ///
    /// The external parser is only given input that
    /// [`crate::scan::spec_scan`] accepts: one complete bencode value, which
    /// is all it handles gracefully.  Input failing that check — truncated,
    /// carrying trailing bytes, or holding an integer token beyond the
    /// signed 64-bit range — is not valid bencode and is rejected here
    /// without the parser seeing it.
    pub fn from_buffer(s: &[u8]) -> (r: Result<Torrent, FromBufferError>)
        ensures
            !crate::scan::spec_scan(s@) ==> r == Err::<Torrent, FromBufferError>(
                FromBufferError::InvalidBencode,
            ),
            crate::scan::spec_scan(s@) ==> (match crate::outside::bencode_parsed(s@) {
                None => r == Err::<Torrent, FromBufferError>(FromBufferError::InvalidBencode),
                Some(v) => match spec_decode(v) {
                    Ok(m) => r matches Ok(t) && t@ == m,
                    Err(e) => r == Err::<Torrent, FromBufferError>(FromBufferError::FromBencode(e)),
                },
            }),
    {
        if !crate::scan::scan_complete(s) {
            return Err(FromBufferError::InvalidBencode);
        }
        match crate::outside::parse_bvalue(s) {
            None => Err(FromBufferError::InvalidBencode),
            Some(b) => match Torrent::from_bencode(&b) {
                Ok(t) => Ok(t),
                Err(e) => Err(FromBufferError::FromBencode(e)),
            },
        }
    }
}

} // verus!
