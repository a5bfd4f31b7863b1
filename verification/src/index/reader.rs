//! Reading an index.
use crate::index::codec::{FLAG_IMPLICIT_PREFIXES, HEADER_LEN, INDEX_VERSION};
use crate::index::error::{format_fault, ErrorView, IndexError};
use crate::index::header::{field, lemma_field_bounds, magic, read_le};
use crate::index::mode::IndexMode;
use crate::index::node::{
    edges_ascend, edges_sound, lemma_node_sound, node_at, parse_node, Edge, Node, NodeView,
};
use crate::index::walker::IndexWalker;
use crate::text::{chars_of, decimal, decimal_of, join2};
use vstd::prelude::*;

verus! {

/// Owned, bounds-checked reader of an index. The header and the root are
/// checked when it is opened, any other node when it is read.
pub struct IndexReader {
    data: Vec<u8>,
    mode: IndexMode,
    root_offset: u64,
    root_subtree: u64,
    node_count: u64,
}

/// The mathematical content of an [`IndexReader`].
pub struct ReaderView {
    pub data: Seq<u8>,
    pub mode: IndexMode,
    pub root_offset: u64,
    pub root_subtree: u64,
    pub node_count: u64,
}

impl View for IndexReader {
    type V = ReaderView;

    closed spec fn view(&self) -> ReaderView {
        ReaderView {
            data: self.data@,
            mode: self.mode,
            root_offset: self.root_offset,
            root_subtree: self.root_subtree,
            node_count: self.node_count,
        }
    }
}

/// The mode that the flags and the window of a header give.
pub open spec fn header_mode(flags: nat, window: nat) -> Result<IndexMode, ErrorView> {
    if flags % 2 == 1 {
        if window == 0 {
            Err(format_fault(48, "implicit-prefix indexes require a non-zero window"@))
        } else {
            Ok(IndexMode::Ngrams { window_codepoints: window as usize })
        }
    } else if window != 0 {
        Err(format_fault(48, "record indexes must have a zero window"@))
    } else {
        Ok(IndexMode::Records)
    }
}

/// What the header of an index says, or the first fault in it.
pub open spec fn read_header(data: Seq<u8>) -> Result<ReaderView, ErrorView> {
    let length = field(data, 16, 8);
    let root_offset = field(data, 24, 8);
    let root_subtree = field(data, 32, 8);
    let node_count = field(data, 40, 8);
    if data.len() < HEADER_LEN {
        Err(format_fault(0, "file is shorter than the fixed header"@))
    } else if data.subrange(0, 8) != magic() {
        Err(format_fault(0, "bad index magic"@))
    } else if field(data, 8, 2) != INDEX_VERSION {
        Err(format_fault(8, "unsupported index version "@ + decimal(field(data, 8, 2))))
    } else if field(data, 10, 2) != HEADER_LEN {
        Err(format_fault(10, "unexpected header length"@))
    } else if field(data, 12, 4) > FLAG_IMPLICIT_PREFIXES {
        Err(format_fault(12, "unknown header flags are set"@))
    } else if length > i64::MAX {
        Err(format_fault(16, "declared file length exceeds i64::MAX"@))
    } else if length != data.len() {
        Err(format_fault(16, "declared file length does not match"@))
    } else if root_offset > i64::MAX {
        Err(format_fault(24, "root offset exceeds i64::MAX"@))
    } else if root_offset < HEADER_LEN || root_offset >= length {
        Err(format_fault(24, "root offset is outside the payload"@))
    } else if root_subtree > i64::MAX {
        Err(format_fault(32, "root subtree count exceeds i64::MAX"@))
    } else if node_count == 0 {
        Err(format_fault(40, "an index must contain a root node"@))
    } else if node_count > i64::MAX {
        Err(format_fault(40, "node count exceeds i64::MAX"@))
    } else if exists|i: int| 52 <= i < HEADER_LEN && #[trigger] data[i] != 0 {
        Err(format_fault(52, "reserved header bytes must be zero"@))
    } else {
        match header_mode(field(data, 12, 4), field(data, 48, 4)) {
            Err(e) => Err(e),
            Ok(mode) => Ok(
                ReaderView {
                    data,
                    mode,
                    root_offset: root_offset as u64,
                    root_subtree: root_subtree as u64,
                    node_count: node_count as u64,
                },
            ),
        }
    }
}

/// The reader of an index, or the first fault in its header or root.
pub open spec fn open_index(data: Seq<u8>) -> Result<ReaderView, ErrorView> {
    match read_header(data) {
        Err(e) => Err(e),
        Ok(reader) => match node_at(data, reader.root_offset) {
            Err(e) => Err(e),
            Ok((root, end)) => if end != data.len() {
                Err(format_fault(end as usize, "root node is not the final object"@))
            } else if root.subtree != reader.root_subtree {
                Err(
                    format_fault(
                        reader.root_offset as usize,
                        "root subtree count disagrees with the header"@,
                    ),
                )
            } else if root.terminal != 0 && !(reader.mode is Ngrams) {
                Err(
                    format_fault(
                        reader.root_offset as usize,
                        "a record-index root cannot contain an empty key"@,
                    ),
                )
            } else {
                Ok(reader)
            },
        },
    }
}

/// The node without the place behind it.
pub open spec fn read_node(data: Seq<u8>, offset: u64) -> Result<NodeView, ErrorView> {
    match node_at(data, offset) {
        Ok((node, end)) => Ok(node),
        Err(e) => Err(e),
    }
}

/// Reads the child that an edge leads to, which has to be as frequent as the
/// edge says.
pub open spec fn follow(data: Seq<u8>, edge: Edge) -> Result<NodeView, ErrorView> {
    match read_node(data, edge.child_offset) {
        Err(e) => Err(e),
        Ok(node) => if node.subtree != edge.subtree {
            Err(
                format_fault(
                    edge.child_offset as usize,
                    "edge subtree count disagrees with its child node"@,
                ),
            )
        } else {
            Ok(node)
        },
    }
}

/// The place of the edge with this label.
pub open spec fn edge_place(edges: Seq<Edge>, label: char) -> Option<int> {
    if exists|i: int| 0 <= i < edges.len() && (#[trigger] edges[i]).label == label {
        Some(choose|i: int| 0 <= i < edges.len() && (#[trigger] edges[i]).label == label)
    } else {
        None
    }
}

/// The node that the labels of a key lead to from a node.
pub open spec fn find_from(data: Seq<u8>, node: NodeView, key: Seq<char>) -> Result<
    Option<NodeView>,
    ErrorView,
>
    decreases key.len(),
{
    if key.len() == 0 {
        Ok(Some(node))
    } else {
        match edge_place(node.edges, key[0]) {
            None => Ok(None),
            Some(i) => match follow(data, node.edges[i]) {
                Err(e) => Err(e),
                Ok(child) => find_from(data, child, key.skip(1)),
            },
        }
    }
}

/// The node of a key.
pub open spec fn find_key(reader: ReaderView, key: Seq<char>) -> Result<
    Option<NodeView>,
    ErrorView,
> {
    match read_node(reader.data, reader.root_offset) {
        Err(e) => Err(e),
        Ok(root) => find_from(reader.data, root, key),
    }
}

/// Binary search for the edge with this label.
pub(crate) fn find_edge(edges: &Vec<Edge>, label: char) -> (r: Option<usize>)
    requires
        edges_ascend(edges@),
    ensures
        match r {
            Some(i) => edge_place(edges@, label) == Some(i as int) && i < edges@.len(),
            None => edge_place(edges@, label) is None,
        },
{
    let mut low: usize = 0;
    let mut high: usize = edges.len();
    while low < high
        invariant
            low <= high <= edges.len(),
            edges_ascend(edges@),
            forall|i: int| 0 <= i < low ==> ((#[trigger] edges@[i]).label as u32) < label as u32,
            forall|i: int| high <= i < edges@.len() ==> (#[trigger] edges@[i]).label as u32
                > label as u32,
        decreases high - low,
    {
        let mid: usize = low + (high - low) / 2;
        let here: u32 = edges[mid].label as u32;
        if here == label as u32 {
            proof {
                crate::text::lemma_same_code_point(edges@[mid as int].label, label);
                assert(edges@[mid as int].label == label);
                let i = choose|i: int| 0 <= i < edges@.len() && (#[trigger] edges@[i]).label == label;
                if i < mid {
                    assert((edges@[i].label as u32) < edges@[mid as int].label as u32);
                } else if mid < i {
                    assert((edges@[mid as int].label as u32) < edges@[i].label as u32);
                }
            }
            return Some(mid);
        }
        if here < label as u32 {
            proof {
                assert forall|i: int| 0 <= i < mid + 1 implies ((
                #[trigger] edges@[i]).label as u32) < label as u32 by {
                    if i < mid {
                        assert((edges@[i].label as u32) < edges@[mid as int].label as u32);
                    }
                }
            }
            low = mid + 1;
        } else {
            proof {
                assert forall|i: int| mid <= i < edges@.len() implies (
                #[trigger] edges@[i]).label as u32 > label as u32 by {
                    if mid < i {
                        assert((edges@[mid as int].label as u32) < edges@[i].label as u32);
                    }
                }
            }
            high = mid;
        }
    }
    None
}

/// Whether the eight bytes at the start are those of every index.
fn has_magic(data: &Vec<u8>) -> (r: bool)
    requires
        data@.len() >= 8,
    ensures
        r == (data@.subrange(0, 8) == magic()),
{
    let r = data[0] == 78 && data[1] == 85 && data[2] == 84 && data[3] == 82 && data[4] == 73
        && data[5] == 90 && data[6] == 72 && data[7] == 50;
    proof {
        let head = data@.subrange(0, 8);
        if r {
            assert(head =~= magic());
        } else if head == magic() {
            assert forall|i: int| 0 <= i < 8 implies data@[i] == magic()[i] by {
                assert(head[i] == data@[i]);
            }
        }
    }
    r
}

/// Whether the reserved bytes of a header are zero.
fn reserved_is_zero(data: &Vec<u8>) -> (r: bool)
    requires
        data@.len() >= HEADER_LEN,
    ensures
        r == !(exists|i: int| 52 <= i < HEADER_LEN && #[trigger] data@[i] != 0),
{
    let mut i: usize = 52;
    while i < HEADER_LEN
        invariant
            52 <= i <= HEADER_LEN,
            data@.len() >= HEADER_LEN,
            forall|k: int| 52 <= k < i ==> #[trigger] data@[k] == 0,
        decreases HEADER_LEN - i,
    {
        if data[i] != 0 {
            return false;
        }
        i += 1;
    }
    true
}

impl IndexReader {
    /// Opens a copy of the bytes.
    pub fn from_slice(data: &[u8]) -> (r: Result<Self, IndexError>)
        ensures
            match (open_index(data@), r) {
                (Ok(v), Ok(reader)) => reader@ == v,
                (Err(e), Err(f)) => f@ == e,
                _ => false,
            },
    {
        let mut copy: Vec<u8> = Vec::new();
        copy.extend_from_slice(data);
        proof {
            assert(copy@ =~= data@);
        }
        Self::from_bytes(copy)
    }

    /// Opens an index.
    pub fn from_bytes(data: Vec<u8>) -> (r: Result<Self, IndexError>)
        ensures
            match (open_index(data@), r) {
                (Ok(v), Ok(reader)) => reader@ == v,
                (Err(e), Err(f)) => f@ == e,
                _ => false,
            },
    {
        proof {
            lemma_field_bounds();
        }
        if data.len() < HEADER_LEN {
            return Err(IndexError::format(0, "file is shorter than the fixed header"));
        }
        if !has_magic(&data) {
            return Err(IndexError::format(0, "bad index magic"));
        }
        let version: u64 = read_le(data.as_slice(), 8, 2);
        if version != INDEX_VERSION as u64 {
            let message = join2("unsupported index version ", decimal_of(version).as_str());
            return Err(IndexError::InvalidFormat { offset: 8, message });
        }
        if read_le(data.as_slice(), 10, 2) != HEADER_LEN as u64 {
            return Err(IndexError::format(10, "unexpected header length"));
        }
        let flags: u64 = read_le(data.as_slice(), 12, 4);
        if flags > FLAG_IMPLICIT_PREFIXES as u64 {
            return Err(IndexError::format(12, "unknown header flags are set"));
        }
        let declared_length: u64 = read_le(data.as_slice(), 16, 8);
        if declared_length > i64::MAX as u64 {
            return Err(IndexError::format(16, "declared file length exceeds i64::MAX"));
        }
        if declared_length != data.len() as u64 {
            return Err(IndexError::format(16, "declared file length does not match"));
        }
        let root_offset: u64 = read_le(data.as_slice(), 24, 8);
        if root_offset > i64::MAX as u64 {
            return Err(IndexError::format(24, "root offset exceeds i64::MAX"));
        }
        if root_offset < HEADER_LEN as u64 || root_offset >= declared_length {
            return Err(IndexError::format(24, "root offset is outside the payload"));
        }
        let root_subtree: u64 = read_le(data.as_slice(), 32, 8);
        if root_subtree > i64::MAX as u64 {
            return Err(IndexError::format(32, "root subtree count exceeds i64::MAX"));
        }
        let node_count: u64 = read_le(data.as_slice(), 40, 8);
        if node_count == 0 {
            return Err(IndexError::format(40, "an index must contain a root node"));
        }
        if node_count > i64::MAX as u64 {
            return Err(IndexError::format(40, "node count exceeds i64::MAX"));
        }
        let window: u64 = read_le(data.as_slice(), 48, 4);
        if !reserved_is_zero(&data) {
            return Err(IndexError::format(52, "reserved header bytes must be zero"));
        }
        let mode = if flags % 2 == 1 {
            if window == 0 {
                return Err(
                    IndexError::format(48, "implicit-prefix indexes require a non-zero window"),
                );
            }
            IndexMode::Ngrams { window_codepoints: window as usize }
        } else {
            if window != 0 {
                return Err(IndexError::format(48, "record indexes must have a zero window"));
            }
            IndexMode::Records
        };
        let reader = IndexReader { data, mode, root_offset, root_subtree, node_count };
        let (root, end) = match parse_node(reader.data.as_slice(), root_offset) {
            Ok(x) => x,
            Err(e) => {
                return Err(e);
            },
        };
        if end != reader.data.len() {
            return Err(IndexError::format(end, "root node is not the final object"));
        }
        if root.subtree != root_subtree {
            return Err(
                IndexError::format(
                    root_offset as usize,
                    "root subtree count disagrees with the header",
                ),
            );
        }
        if root.terminal != 0 && !mode.implicit_prefixes() {
            return Err(
                IndexError::format(
                    root_offset as usize,
                    "a record-index root cannot contain an empty key",
                ),
            );
        }
        Ok(reader)
    }

    /// The mode of the index.
    pub fn mode(&self) -> (r: IndexMode)
        ensures
            r == self@.mode,
    {
        self.mode
    }

    /// Whether every prefix of a key is a result.
    pub fn implicit_prefixes(&self) -> (r: bool)
        ensures
            r == (self@.mode is Ngrams),
    {
        self.mode.implicit_prefixes()
    }

    /// The length of the window, where there is one.
    pub fn window_codepoints(&self) -> (r: Option<usize>)
        ensures
            r == (match self@.mode {
                IndexMode::Records => None,
                IndexMode::Ngrams { window_codepoints } => Some(window_codepoints),
            }),
    {
        self.mode.window_codepoints()
    }

    /// Where the root stands.
    pub fn root_offset(&self) -> (r: u64)
        ensures
            r == self@.root_offset,
    {
        self.root_offset
    }

    /// Where the root stands.
    pub fn root(&self) -> (r: u64)
        ensures
            r == self@.root_offset,
    {
        self.root_offset
    }

    /// The frequency of the root.
    pub fn root_subtree(&self) -> (r: u64)
        ensures
            r == self@.root_subtree,
    {
        self.root_subtree
    }

    /// The number of nodes.
    pub fn node_count(&self) -> (r: u64)
        ensures
            r == self@.node_count,
    {
        self.node_count
    }

    /// The bytes of the index.
    pub fn as_bytes(&self) -> (r: &[u8])
        ensures
            r@ == self@.data,
    {
        self.data.as_slice()
    }

    /// Reads the node at `offset`.
    pub fn node(&self, offset: u64) -> (r: Result<Node, IndexError>)
        ensures
            match (read_node(self@.data, offset), r) {
                (Ok(v), Ok(node)) => node@ == v && edges_sound(v.edges, offset),
                (Err(e), Err(f)) => f@ == e,
                _ => false,
            },
    {
        match parse_node(self.data.as_slice(), offset) {
            Ok((node, _)) => {
                proof {
                    lemma_node_sound(self@.data, offset);
                }
                Ok(node)
            },
            Err(e) => Err(e),
        }
    }

    /// Reads the node at `offset`, with the place behind it.
    pub(crate) fn node_and_end(&self, offset: u64) -> (r: Result<(Node, usize), IndexError>)
        ensures
            match (node_at(self@.data, offset), r) {
                (Ok((node, end)), Ok((n, e))) => node == n@ && end == e,
                (Err(e), Err(f)) => e == f@,
                _ => false,
            },
    {
        parse_node(self.data.as_slice(), offset)
    }

    /// Reads the child that an edge leads to.
    pub(crate) fn child(&self, edge: Edge) -> (r: Result<Node, IndexError>)
        ensures
            match (follow(self@.data, edge), r) {
                (Ok(v), Ok(node)) => node@ == v && edges_sound(v.edges, edge.child_offset),
                (Err(e), Err(f)) => f@ == e,
                _ => false,
            },
    {
        let node = match self.node(edge.child_offset) {
            Ok(node) => node,
            Err(e) => {
                return Err(e);
            },
        };
        if node.subtree != edge.subtree {
            return Err(
                IndexError::format(
                    edge.child_offset as usize,
                    "edge subtree count disagrees with its child node",
                ),
            );
        }
        Ok(node)
    }

    /// The node of a key, where the index holds one.
    pub fn find(&self, key: &str) -> (r: Result<Option<Node>, IndexError>)
        ensures
            match (find_key(self@, key@), r) {
                (Ok(Some(v)), Ok(Some(node))) => node@ == v,
                (Ok(None), Ok(None)) => true,
                (Err(e), Err(f)) => f@ == e,
                _ => false,
            },
    {
        let chars = chars_of(key);
        let mut node = match self.node(self.root_offset) {
            Ok(node) => node,
            Err(e) => {
                return Err(e);
            },
        };
        let mut i: usize = 0;
        assert(chars@.skip(0) =~= chars@);
        while i < chars.len()
            invariant
                i <= chars.len(),
                chars@ == key@,
                edges_ascend(node.edges@),
                find_key(self@, key@) == find_from(self@.data, node@, chars@.skip(i as int)),
            decreases chars.len() - i,
        {
            proof {
                assert(chars@.skip(i as int)[0] == chars@[i as int]);
                assert(chars@.skip(i as int).skip(1) =~= chars@.skip(i + 1));
            }
            let place: usize = match find_edge(&node.edges, chars[i]) {
                Some(place) => place,
                None => {
                    return Ok(None);
                },
            };
            node =
            match self.child(node.edges[place]) {
                Ok(child) => child,
                Err(e) => {
                    return Err(e);
                },
            };
            i += 1;
        }
        assert(chars@.skip(i as int).len() == 0);
        Ok(Some(node))
    }

    /// Walks over the keys of the index.
    pub fn walk(&self) -> (r: Result<IndexWalker<'_>, IndexError>)
        ensures
            match (read_node(self@.data, self@.root_offset), r) {
                (Ok(v), Ok(walker)) => walker.starts(*self, v),
                (Err(e), Err(f)) => f@ == e,
                _ => false,
            },
    {
        IndexWalker::new(self)
    }
}

} // verus!
