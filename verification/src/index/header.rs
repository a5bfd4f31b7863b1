//! The fixed header of an index.
use crate::index::codec::{FLAG_IMPLICIT_PREFIXES, HEADER_LEN, INDEX_VERSION};
use crate::index::mode::IndexMode;
use crate::index::node::{holds, lemma_holds_split};
use vstd::prelude::*;

verus! {

/// A number in `n` bytes, the lowest first.
pub open spec fn le_bytes(v: nat, n: nat) -> Seq<u8>
    decreases n,
{
    if n == 0 {
        Seq::empty()
    } else {
        seq![(v % 256) as u8] + le_bytes(v / 256, (n - 1) as nat)
    }
}

/// The number that bytes write, the lowest first.
pub open spec fn le_value(s: Seq<u8>) -> nat
    decreases s.len(),
{
    if s.len() == 0 {
        0
    } else {
        s[0] as nat + 256 * le_value(s.skip(1))
    }
}

/// A power of 256.
pub open spec fn pow256(n: nat) -> nat
    decreases n,
{
    if n == 0 {
        1
    } else {
        256 * pow256((n - 1) as nat)
    }
}

proof fn lemma_pow256()
    ensures
        pow256(2) == 0x1_0000,
        pow256(4) == 0x1_0000_0000,
        pow256(8) == 0x1_0000_0000_0000_0000,
        forall|n: nat| n < 8 ==> #[trigger] pow256(n) * 256 <= 0x1_0000_0000_0000_0000,
{
    reveal_with_fuel(pow256, 10);
}

proof fn lemma_le_len(v: nat, n: nat)
    ensures
        le_bytes(v, n).len() == n,
    decreases n,
{
    if n > 0 {
        lemma_le_len(v / 256, (n - 1) as nat);
    }
}

proof fn lemma_le_read_back(v: nat, n: nat)
    requires
        v < pow256(n),
    ensures
        le_value(le_bytes(v, n)) == v,
        le_bytes(v, n).len() == n,
    decreases n,
{
    if n > 0 {
        lemma_le_read_back(v / 256, (n - 1) as nat);
        let s = le_bytes(v, n);
        assert(s.skip(1) =~= le_bytes(v / 256, (n - 1) as nat));
    }
}

proof fn lemma_le_bound(s: Seq<u8>)
    ensures
        le_value(s) < pow256(s.len()),
    decreases s.len(),
{
    if s.len() > 0 {
        lemma_le_bound(s.skip(1));
    }
}

/// The number in the `n` bytes at `at`.
pub open spec fn field(data: Seq<u8>, at: int, n: int) -> nat {
    le_value(data.subrange(at, at + n))
}

/// The first bytes of every index.
pub open spec fn magic() -> Seq<u8> {
    seq![78u8, 85u8, 84u8, 82u8, 73u8, 90u8, 72u8, 50u8]
}

/// The header flags of a mode.
pub open spec fn flags_of(mode: IndexMode) -> nat {
    match mode {
        IndexMode::Records => 0,
        IndexMode::Ngrams { window_codepoints } => FLAG_IMPLICIT_PREFIXES as nat,
    }
}

/// The header window of a mode.
pub open spec fn window_of(mode: IndexMode) -> nat {
    match mode {
        IndexMode::Records => 0,
        IndexMode::Ngrams { window_codepoints } => window_codepoints as nat,
    }
}

/// What a header says.
pub struct Header {
    pub mode: IndexMode,
    pub length: u64,
    pub root_offset: u64,
    pub root_subtree: u64,
    pub node_count: u64,
}

/// The bytes of a header.
pub open spec fn header_bytes(h: Header) -> Seq<u8> {
    magic() + le_bytes(INDEX_VERSION as nat, 2) + le_bytes(HEADER_LEN as nat, 2) + le_bytes(
        flags_of(h.mode),
        4,
    ) + le_bytes(h.length as nat, 8) + le_bytes(h.root_offset as nat, 8) + le_bytes(
        h.root_subtree as nat,
        8,
    ) + le_bytes(h.node_count as nat, 8) + le_bytes(window_of(h.mode), 4) + zeros(12)
}

/// `n` zero bytes.
pub open spec fn zeros(n: nat) -> Seq<u8> {
    Seq::new(n, |i: int| 0u8)
}

pub proof fn lemma_header_len(h: Header)
    ensures
        header_bytes(h).len() == HEADER_LEN,
{
    lemma_le_len(INDEX_VERSION as nat, 2);
    lemma_le_len(HEADER_LEN as nat, 2);
    lemma_le_len(flags_of(h.mode), 4);
    lemma_le_len(h.length as nat, 8);
    lemma_le_len(h.root_offset as nat, 8);
    lemma_le_len(h.root_subtree as nat, 8);
    lemma_le_len(h.node_count as nat, 8);
    lemma_le_len(window_of(h.mode), 4);
}

/// A header reads back as it was written.
pub proof fn lemma_header_read_back(data: Seq<u8>, h: Header)
    requires
        holds(data, 0, header_bytes(h)),
        window_of(h.mode) <= u32::MAX,
    ensures
        data.subrange(0, 8) == magic(),
        field(data, 8, 2) == INDEX_VERSION,
        field(data, 10, 2) == HEADER_LEN,
        field(data, 12, 4) == flags_of(h.mode),
        field(data, 16, 8) == h.length,
        field(data, 24, 8) == h.root_offset,
        field(data, 32, 8) == h.root_subtree,
        field(data, 40, 8) == h.node_count,
        field(data, 48, 4) == window_of(h.mode),
        forall|i: int| 52 <= i < HEADER_LEN ==> #[trigger] data[i] == 0,
        data.len() >= HEADER_LEN,
{
    lemma_pow256();
    let b1 = le_bytes(INDEX_VERSION as nat, 2);
    let b2 = le_bytes(HEADER_LEN as nat, 2);
    let b3 = le_bytes(flags_of(h.mode), 4);
    let b4 = le_bytes(h.length as nat, 8);
    let b5 = le_bytes(h.root_offset as nat, 8);
    let b6 = le_bytes(h.root_subtree as nat, 8);
    let b7 = le_bytes(h.node_count as nat, 8);
    let b8 = le_bytes(window_of(h.mode), 4);
    lemma_le_read_back(INDEX_VERSION as nat, 2);
    lemma_le_read_back(HEADER_LEN as nat, 2);
    lemma_le_read_back(flags_of(h.mode), 4);
    lemma_le_read_back(h.length as nat, 8);
    lemma_le_read_back(h.root_offset as nat, 8);
    lemma_le_read_back(h.root_subtree as nat, 8);
    lemma_le_read_back(h.node_count as nat, 8);
    lemma_le_read_back(window_of(h.mode), 4);
    let s0 = magic();
    let s1 = s0 + b1;
    let s2 = s1 + b2;
    let s3 = s2 + b3;
    let s4 = s3 + b4;
    let s5 = s4 + b5;
    let s6 = s5 + b6;
    let s7 = s6 + b7;
    let s8 = s7 + b8;
    lemma_header_len(h);
    lemma_holds_split(data, 0, s8, zeros(12));
    lemma_holds_split(data, 0, s7, b8);
    lemma_holds_split(data, 0, s6, b7);
    lemma_holds_split(data, 0, s5, b6);
    lemma_holds_split(data, 0, s4, b5);
    lemma_holds_split(data, 0, s3, b4);
    lemma_holds_split(data, 0, s2, b3);
    lemma_holds_split(data, 0, s1, b2);
    lemma_holds_split(data, 0, s0, b1);
    assert forall|i: int| 52 <= i < HEADER_LEN implies #[trigger] data[i] == 0 by {
        assert(data.subrange(52, 64)[i - 52] == zeros(12)[i - 52]);
    }
}

/// Reads a number of `n` bytes.
pub(crate) fn read_le(data: &[u8], at: usize, n: usize) -> (r: u64)
    requires
        n <= 8,
        at + n <= data@.len(),
    ensures
        r == field(data@, at as int, n as int),
        r < pow256(n as nat),
{
    let mut value: u64 = 0;
    let mut i: usize = n;
    assert(at + n <= data.len());
    let ghost bytes = data@.subrange(at as int, at + n);
    assert(bytes.skip(n as int) =~= Seq::empty());
    while i > 0
        invariant
            i <= n <= 8,
            at + n <= data.len(),
            bytes == data@.subrange(at as int, at + n),
            value == le_value(bytes.skip(i as int)),
        decreases i,
    {
        proof {
            lemma_pow256();
            lemma_le_bound(bytes.skip(i as int));
            lemma_pow256_mono((n - i) as nat, 7);
            assert(bytes.skip(i - 1).skip(1) =~= bytes.skip(i as int));
            assert(bytes.skip(i - 1)[0] == data@[at + i - 1]);
        }
        i -= 1;
        value = value * 256 + data[at + i] as u64;
    }
    proof {
        assert(bytes.skip(0) =~= bytes);
        lemma_le_bound(bytes);
    }
    value
}

proof fn lemma_pow256_mono(m: nat, n: nat)
    requires
        m <= n,
    ensures
        pow256(m) <= pow256(n),
    decreases n,
{
    if m < n {
        lemma_pow256_mono(m, (n - 1) as nat);
    }
}

/// The bounds of the fields that a header holds.
pub(crate) proof fn lemma_field_bounds()
    ensures
        pow256(2) == 0x1_0000,
        pow256(4) == 0x1_0000_0000,
        pow256(8) == 0x1_0000_0000_0000_0000,
{
    lemma_pow256();
}

/// Appends a number in `n` bytes.
fn push_le(out: &mut Vec<u8>, value: u64, n: usize)
    ensures
        final(out)@ == old(out)@ + le_bytes(value as nat, n as nat),
{
    let mut left: u64 = value;
    let mut i: usize = n;
    while i > 0
        invariant
            out@ + le_bytes(left as nat, i as nat) == old(out)@ + le_bytes(value as nat, n as nat),
        decreases i,
    {
        let ghost before = out@;
        let byte: u8 = (left % 256) as u8;
        out.push(byte);
        proof {
            let rest = le_bytes((left / 256) as nat, (i - 1) as nat);
            assert(before + (seq![byte] + rest) =~= out@ + rest);
        }
        left = left / 256;
        i -= 1;
    }
    proof {
        assert(out@ + le_bytes(left as nat, 0) =~= out@);
    }
}

/// Writes a header over the first bytes of an index.
pub(crate) fn write_header(
    out: &mut Vec<u8>,
    mode: IndexMode,
    root_offset: u64,
    root_subtree: u64,
    node_count: u64,
)
    requires
        old(out)@.len() >= HEADER_LEN,
        window_of(mode) <= u32::MAX,
    ensures
        final(out)@ == header_bytes(
            Header {
                mode,
                length: old(out)@.len() as u64,
                root_offset,
                root_subtree,
                node_count,
            },
        ) + old(out)@.skip(HEADER_LEN as int),
{
    let mut header: Vec<u8> = vec![78u8, 85u8, 84u8, 82u8, 73u8, 90u8, 72u8, 50u8];
    let flags: u64 = if mode.implicit_prefixes() {
        1
    } else {
        0
    };
    let window: u64 = match mode.window_codepoints() {
        Some(w) => w as u64,
        None => 0,
    };
    let length: u64 = out.len() as u64;
    let ghost h = Header { mode, length, root_offset, root_subtree, node_count };
    assert(header@ =~= magic());
    push_le(&mut header, INDEX_VERSION as u64, 2);
    push_le(&mut header, HEADER_LEN as u64, 2);
    push_le(&mut header, flags, 4);
    push_le(&mut header, length, 8);
    push_le(&mut header, root_offset, 8);
    push_le(&mut header, root_subtree, 8);
    push_le(&mut header, node_count, 8);
    push_le(&mut header, window, 4);
    let ghost head = header@;
    let mut i: usize = 0;
    while i < 12
        invariant
            i <= 12,
            header@ == head + zeros(i as nat),
        decreases 12 - i,
    {
        header.push(0);
        proof {
            assert(header@ =~= head + zeros((i + 1) as nat));
        }
        i += 1;
    }
    proof {
        lemma_header_len(h);
        assert(header@ =~= header_bytes(h));
    }
    let ghost before = out@;
    let mut k: usize = 0;
    while k < HEADER_LEN
        invariant
            k <= HEADER_LEN,
            header@ == header_bytes(h),
            header@.len() == HEADER_LEN,
            before.len() >= HEADER_LEN,
            out@.len() == before.len(),
            forall|j: int| 0 <= j < k ==> out@[j] == header@[j],
            forall|j: int| k <= j < out@.len() ==> out@[j] == before[j],
        decreases HEADER_LEN - k,
    {
        out.set(k, header[k]);
        k += 1;
    }
    proof {
        assert(out@ =~= header_bytes(h) + before.skip(HEADER_LEN as int));
    }
}

} // verus!
