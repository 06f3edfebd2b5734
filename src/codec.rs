//! Byte layout of the metadata block: little-endian integers, entry records,
//! and the pre-order serializer.
use vstd::prelude::*;
use crate::entry::{Rec, WtarFile, rec_of, preorder, preorder_children};

verus! {

/// `256` raised to `k`.
pub open spec fn pow256(k: nat) -> nat
    decreases k,
{
    if k == 0 { 1 } else { 256 * pow256((k - 1) as nat) }
}

/// The low `k` bytes of `n`, least significant first.
pub open spec fn le_bytes(n: nat, k: nat) -> Seq<u8>
    decreases k,
{
    if k == 0 {
        seq![]
    } else {
        seq![(n % 256) as u8] + le_bytes(n / 256, (k - 1) as nat)
    }
}

/// The number that the bytes of `s` spell, least significant first.
pub open spec fn le_value(s: Seq<u8>) -> nat
    decreases s.len(),
{
    if s.len() == 0 {
        0
    } else {
        s[0] as nat + 256 * le_value(s.subrange(1, s.len() as int))
    }
}

/// The flag byte that marks a directory (1) or a file (0).
pub open spec fn flag_byte(is_dir: bool) -> u8 {
    if is_dir { 1 } else { 0 }
}

/// One entry record: name length (u32 LE), name bytes, directory flag, and
/// for a file its size (u64 LE).
pub open spec fn encode_rec(r: Rec) -> Seq<u8> {
    le_bytes(r.0.len(), 4) + r.0 + seq![flag_byte(r.1)] + if r.1 {
        Seq::<u8>::empty()
    } else {
        le_bytes(r.2 as nat, 8)
    }
}

/// The records of `rs`, one after another.
pub open spec fn encode_all(rs: Seq<Rec>) -> Seq<u8>
    decreases rs.len(),
{
    if rs.len() == 0 {
        seq![]
    } else {
        encode_all(rs.drop_last()) + encode_rec(rs.last())
    }
}

/// Encoding two runs of records is encoding each, one after the other.
pub proof fn lemma_encode_all_append(a: Seq<Rec>, b: Seq<Rec>)
    ensures
        encode_all(a + b) == encode_all(a) + encode_all(b),
    decreases b.len(),
{
    if b.len() == 0 {
        assert(a + b =~= a);
        assert(encode_all(b) =~= seq![]);
        assert(encode_all(a) + encode_all(b) =~= encode_all(a));
    } else {
        lemma_encode_all_append(a, b.drop_last());
        assert((a + b).drop_last() =~= a + b.drop_last());
        assert((a + b).last() == b.last());
        assert(encode_all(a + b) == encode_all(a + b.drop_last()) + encode_rec(b.last()));
        assert(encode_all(a) + encode_all(b) =~= encode_all(a) + encode_all(b.drop_last())
            + encode_rec(b.last()));
    }
}

/// Appends the bytes of `src` to `buf`.
pub fn append_bytes(buf: &mut Vec<u8>, src: &Vec<u8>)
    ensures
        final(buf)@ == old(buf)@ + src@,
{
    let mut i: usize = 0;
    while i < src.len()
        invariant
            i <= src@.len(),
            buf@ == old(buf)@ + src@.subrange(0, i as int),
        decreases src@.len() - i,
    {
        buf.push(src[i]);
        i = i + 1;
        assert(src@.subrange(0, i as int) =~= src@.subrange(0, (i - 1) as int).push(src@[i - 1]));
    }
    assert(src@.subrange(0, src@.len() as int) =~= src@);
}

/// Appends the low `k` bytes of `n`, least significant first.
pub fn push_le(buf: &mut Vec<u8>, n: u64, k: usize)
    ensures
        final(buf)@ == old(buf)@ + le_bytes(n as nat, k as nat),
    decreases k,
{
    if k == 0 {
        assert(old(buf)@ + le_bytes(n as nat, 0) =~= old(buf)@);
    } else {
        buf.push((n % 256) as u8);
        push_le(buf, n / 256, k - 1);
        assert(old(buf)@ + le_bytes(n as nat, k as nat) =~= old(buf)@.push((n % 256) as u8)
            + le_bytes((n / 256) as nat, (k - 1) as nat));
    }
}

/// Appends the record of `node` alone.
fn push_record(node: &WtarFile, meta_buf: &mut Vec<u8>)
    ensures
        final(meta_buf)@ == old(meta_buf)@ + encode_rec(rec_of(*node)),
{
    push_le(meta_buf, node.path.len() as u64, 4);
    append_bytes(meta_buf, &node.path);
    if node.is_dir {
        meta_buf.push(1);
    } else {
        meta_buf.push(0);
        push_le(meta_buf, node.size, 8);
    }
    let ghost r = rec_of(*node);
    assert(meta_buf@ =~= old(meta_buf)@ + encode_rec(r)) by {
        if node.is_dir {
            assert(encode_rec(r) =~= le_bytes(r.0.len(), 4) + r.0 + seq![1u8]);
        }
    }
}

/// The paths of the file records among `rs`, in order.
pub open spec fn file_paths(rs: Seq<Rec>) -> Seq<Seq<u8>>
    decreases rs.len(),
{
    if rs.len() == 0 {
        seq![]
    } else if rs.last().1 {
        file_paths(rs.drop_last())
    } else {
        file_paths(rs.drop_last()).push(rs.last().0)
    }
}

/// The file paths of two runs of records are those of each, one after the other.
pub proof fn lemma_file_paths_append(a: Seq<Rec>, b: Seq<Rec>)
    ensures
        file_paths(a + b) == file_paths(a) + file_paths(b),
    decreases b.len(),
{
    if b.len() == 0 {
        assert(a + b =~= a);
        assert(file_paths(a) + file_paths(b) =~= file_paths(a));
    } else {
        lemma_file_paths_append(a, b.drop_last());
        assert((a + b).drop_last() =~= a + b.drop_last());
        assert((a + b).last() == b.last());
        if b.last().1 {
            assert(file_paths(a) + file_paths(b) =~= file_paths(a) + file_paths(b.drop_last()));
        } else {
            assert(file_paths(a) + file_paths(b) =~= (file_paths(a) + file_paths(
                b.drop_last(),
            )).push(b.last().0));
        }
    }
}

/// A single record lists its own path exactly when it is a file.
proof fn lemma_file_paths_single(r: Rec)
    ensures
        file_paths(seq![r]) == (if r.1 { Seq::<Seq<u8>>::empty() } else { seq![r.0] }),
{
    let s = seq![r];
    assert(s.drop_last() =~= Seq::<Rec>::empty());
    assert(s.last() == r);
    assert(file_paths(Seq::<Rec>::empty()) =~= Seq::<Seq<u8>>::empty());
    if !r.1 {
        assert(Seq::<Seq<u8>>::empty().push(r.0) =~= seq![r.0]);
    }
}

/// A copy of `src`.
pub fn copy_bytes(src: &Vec<u8>) -> (r: Vec<u8>)
    ensures
        r@ == src@,
{
    let mut r: Vec<u8> = Vec::new();
    append_bytes(&mut r, src);
    assert(Seq::<u8>::empty() + src@ =~= src@);
    r
}

/// Serializes `node` and everything below it in pre-order: appends the
/// records to `meta_buf` and the path of every file, in the same order, to
/// `file_list`.
pub fn serialize_tree(node: &WtarFile, meta_buf: &mut Vec<u8>, file_list: &mut Vec<Vec<u8>>)
    ensures
        final(meta_buf)@ == old(meta_buf)@ + encode_all(preorder(*node)),
        final(file_list).deep_view() == old(file_list).deep_view() + file_paths(preorder(*node)),
    decreases node, 1nat,
{
    push_record(node, meta_buf);
    let ghost r = rec_of(*node);
    proof {
        lemma_file_paths_single(r);
        assert(encode_all(seq![r]) =~= encode_all(seq![r].drop_last()) + encode_rec(r));
        assert(encode_all(seq![r]) =~= encode_rec(r)) by {
            assert(seq![r].drop_last() =~= Seq::<Rec>::empty());
        }
    }
    if node.is_dir {
        serialize_children(node, meta_buf, file_list);
        proof {
            let rest = preorder_children(*node, node.children@.len() as int);
            assert(preorder(*node) == seq![r] + rest);
            lemma_encode_all_append(seq![r], rest);
            lemma_file_paths_append(seq![r], rest);
            assert(meta_buf@ =~= old(meta_buf)@ + encode_all(preorder(*node)));
            assert(file_list.deep_view() =~= old(file_list).deep_view() + file_paths(preorder(*node)));
        }
    } else {
        let p = copy_bytes(&node.path);
        file_list.push(p);
        proof {
            assert(preorder(*node) == seq![r]);
            assert(p.deep_view() =~= p@);
            assert(file_list@ == old(file_list)@.push(p));
            assert(file_list.deep_view() =~= old(file_list).deep_view() + file_paths(seq![r]));
        }
    }
}

/// Serializes every child of `node` in order, each with its whole subtree,
/// but not `node` itself.
pub fn serialize_children(node: &WtarFile, meta_buf: &mut Vec<u8>, file_list: &mut Vec<Vec<u8>>)
    ensures
        final(meta_buf)@ == old(meta_buf)@ + encode_all(
            preorder_children(*node, node.children@.len() as int),
        ),
        final(file_list).deep_view() == old(file_list).deep_view() + file_paths(
            preorder_children(*node, node.children@.len() as int),
        ),
    decreases node, 0nat,
{
    let mut i: usize = 0;
    proof {
        assert(preorder_children(*node, 0) =~= Seq::<Rec>::empty());
        assert(meta_buf@ =~= old(meta_buf)@ + encode_all(Seq::<Rec>::empty()));
        assert(file_list.deep_view() =~= old(file_list).deep_view() + file_paths(Seq::<Rec>::empty()));
    }
    while i < node.children.len()
        invariant
            i <= node.children@.len(),
            meta_buf@ == old(meta_buf)@ + encode_all(preorder_children(*node, i as int)),
            file_list.deep_view() == old(file_list).deep_view() + file_paths(
                preorder_children(*node, i as int),
            ),
        decreases node.children@.len() - i,
    {
        let ghost before = preorder_children(*node, i as int);
        let ghost sub = preorder(node.children@[i as int]);
        serialize_tree(&node.children[i], meta_buf, file_list);
        proof {
            lemma_encode_all_append(before, sub);
            lemma_file_paths_append(before, sub);
            assert(preorder_children(*node, i + 1) =~= before + sub);
            assert(meta_buf@ =~= old(meta_buf)@ + encode_all(before + sub));
            assert(file_list.deep_view() =~= old(file_list).deep_view() + file_paths(before + sub));
        }
        i = i + 1;
    }
}

/// The records that an archive of `root` holds: those of its children and
/// everything below them, in pre-order. The root itself is not recorded.
pub open spec fn tree_records(root: WtarFile) -> Seq<Rec> {
    preorder_children(root, root.children@.len() as int)
}

/// The metadata block of an archive of `root`.
pub open spec fn metadata_of(root: WtarFile) -> Seq<u8> {
    encode_all(tree_records(root))
}

/// Why an archive cannot be built or read.
#[derive(Debug, PartialEq, Eq, Structural)]
pub enum ArchiveError {
    /// The metadata block would not fit the 32-bit length prefix.
    MetadataTooLarge,
    /// The bytes do not split into whole entry records, or the payload
    /// offsets they imply do not fit 64 bits.
    Malformed,
}

/// The head of an archive: the length prefix with the metadata block, and
/// the files whose contents follow it, in order.
pub struct ArchiveHeader {
    pub bytes: Vec<u8>,
    pub file_list: Vec<Vec<u8>>,
}

/// Builds the head of an archive of `root`: the metadata block of its
/// subtree behind its own length as a little-endian `u32`, and the list of
/// files whose contents make up the payload.
pub fn create_header(root: &WtarFile) -> (r: Result<ArchiveHeader, ArchiveError>)
    ensures
        r is Ok <==> metadata_of(*root).len() <= u32::MAX,
        r matches Ok(h) ==> h.bytes@ == le_bytes(metadata_of(*root).len(), 4) + metadata_of(*root)
            && h.file_list.deep_view() == file_paths(tree_records(*root)),
        r matches Err(e) ==> e == ArchiveError::MetadataTooLarge,
{
    let mut meta: Vec<u8> = Vec::new();
    let mut file_list: Vec<Vec<u8>> = Vec::new();
    serialize_children(root, &mut meta, &mut file_list);
    assert(meta@ =~= metadata_of(*root));
    assert(file_list.deep_view() =~= file_paths(tree_records(*root)));
    if meta.len() > 0xffff_ffffusize {
        return Err(ArchiveError::MetadataTooLarge);
    }
    let mut bytes: Vec<u8> = Vec::new();
    push_le(&mut bytes, meta.len() as u64, 4);
    append_bytes(&mut bytes, &meta);
    assert(bytes@ =~= le_bytes(metadata_of(*root).len(), 4) + metadata_of(*root));
    Ok(ArchiveHeader { bytes, file_list })
}

/// `k` bytes are written for any number.
pub proof fn lemma_le_bytes_len(n: nat, k: nat)
    ensures
        le_bytes(n, k).len() == k,
    decreases k,
{
    if k > 0 {
        lemma_le_bytes_len(n / 256, (k - 1) as nat);
    }
}

/// The value that `k` little-endian bytes spell is below `256` to the `k`.
pub proof fn lemma_le_value_bound(s: Seq<u8>)
    ensures
        le_value(s) < pow256(s.len()),
    decreases s.len(),
{
    if s.len() > 0 {
        let t = s.subrange(1, s.len() as int);
        lemma_le_value_bound(t);
        let a = s[0] as nat;
        let v = le_value(t);
        let p = pow256(t.len());
        assert(a + 256 * v < 256 * p) by (nonlinear_arith)
            requires
                a < 256,
                v < p,
        ;
        assert(pow256(s.len()) == 256 * p);
    }
}

/// `256` to the fourth is one more than the largest `u32`.
pub proof fn lemma_pow256_four()
    ensures
        pow256(4) == 0x1_0000_0000,
{
    reveal_with_fuel(pow256, 5);
}

/// `256` to the eighth is one more than the largest `u64`.
pub proof fn lemma_pow256_eight()
    ensures
        pow256(8) == 0x1_0000_0000_0000_0000,
{
    reveal_with_fuel(pow256, 9);
}

/// Reading back the bytes of a number that fits them gives the number.
pub proof fn lemma_le_round_trip(n: nat, k: nat)
    requires
        n < pow256(k),
    ensures
        le_value(le_bytes(n, k)) == n,
    decreases k,
{
    if k > 0 {
        let q = n / 256;
        let p = pow256((k - 1) as nat);
        assert(q < p) by (nonlinear_arith)
            requires
                n < 256 * p,
                q == n / 256,
        ;
        lemma_le_round_trip(q, (k - 1) as nat);
        let s = le_bytes(n, k);
        lemma_le_bytes_len(n, k);
        assert(s.subrange(1, s.len() as int) =~= le_bytes(q, (k - 1) as nat));
        assert(n == n % 256 + 256 * q);
    }
}

/// The length prefix of every archive head equals the exact length of the
/// metadata block that follows it, whatever the shape of the tree.
pub proof fn lemma_length_prefix(root: WtarFile)
    requires
        metadata_of(root).len() <= u32::MAX,
    ensures
        ({
            let head = le_bytes(metadata_of(root).len(), 4) + metadata_of(root);
            &&& le_value(head.subrange(0, 4)) == head.len() - 4
            &&& head.subrange(4, head.len() as int) == metadata_of(root)
        }),
{
    let m = metadata_of(root);
    let head = le_bytes(m.len(), 4) + m;
    lemma_le_bytes_len(m.len(), 4);
    lemma_pow256_four();
    lemma_le_round_trip(m.len(), 4);
    assert(head.subrange(0, 4) =~= le_bytes(m.len(), 4));
    assert(head.subrange(4, head.len() as int) =~= m);
}

/// `p` without one trailing `/`, if it has one.
pub open spec fn strip_slash(p: Seq<u8>) -> Seq<u8> {
    if p.len() > 0 && p.last() == 0x2f { p.drop_last() } else { p }
}

/// The bytes of the `.wtar` suffix.
pub open spec fn wtar_suffix() -> Seq<u8> {
    seq![0x2eu8, 0x77u8, 0x74u8, 0x61u8, 0x72u8]
}

/// The bytes of the `.gz` suffix.
pub open spec fn gz_suffix() -> Seq<u8> {
    seq![0x2eu8, 0x67u8, 0x7au8]
}

/// The name of the uncompressed archive of the folder `folder`: the folder's
/// path without a trailing `/`, then `.wtar`.
pub fn archive_name(folder: &Vec<u8>) -> (r: Vec<u8>)
    ensures
        r@ == strip_slash(folder@) + wtar_suffix(),
{
    let mut r = copy_bytes(folder);
    if r.len() > 0 && r[r.len() - 1] == 0x2f {
        r.pop();
    }
    r.push(0x2e);
    r.push(0x77);
    r.push(0x74);
    r.push(0x61);
    r.push(0x72);
    assert(r@ =~= strip_slash(folder@) + wtar_suffix());
    r
}

/// The name of the compressed archive stored beside `name`: `name`, then `.gz`.
pub fn compressed_name(name: &Vec<u8>) -> (r: Vec<u8>)
    ensures
        r@ == name@ + gz_suffix(),
{
    let mut r = copy_bytes(name);
    r.push(0x2e);
    r.push(0x67);
    r.push(0x7a);
    assert(r@ =~= name@ + gz_suffix());
    r
}

} // verus!
