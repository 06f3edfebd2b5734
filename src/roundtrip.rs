//! Reading back what was written: the records that an archive head is
//! parsed into are exactly those it was built from.
use vstd::prelude::*;
use crate::codec::{
    encode_all, encode_rec, flag_byte, le_bytes, le_value, lemma_encode_all_append,
    lemma_le_bytes_len, lemma_le_round_trip, lemma_pow256_eight, lemma_pow256_four, metadata_of,
    tree_records,
};
use crate::entry::{Rec, WtarFile, preorder, preorder_children, rec_of};
use crate::reader::{join, parse_all, parse_rec};

verus! {

/// A record that can be read back as it was written: its name length fits
/// the 32-bit field, and a directory carries no size.
pub open spec fn valid_rec(r: Rec) -> bool {
    r.0.len() <= u32::MAX && (r.1 ==> r.2 == 0)
}

/// One record followed by anything is parsed as that record, then the rest.
pub proof fn lemma_parse_encoded_rec(r: Rec, rest: Seq<u8>)
    requires
        valid_rec(r),
    ensures
        parse_all(encode_rec(r) + rest) == join(seq![r], parse_all(rest)),
{
    let e = encode_rec(r);
    let s = e + rest;
    let nl = r.0.len() as int;
    lemma_le_bytes_len(nl as nat, 4);
    lemma_le_bytes_len(r.2 as nat, 8);
    lemma_pow256_four();
    lemma_pow256_eight();
    lemma_le_round_trip(nl as nat, 4);
    lemma_le_round_trip(r.2 as nat, 8);
    assert(s.subrange(0, 4) =~= le_bytes(nl as nat, 4));
    assert(s.subrange(4, 4 + nl) =~= r.0);
    assert(s[4 + nl] == flag_byte(r.1));
    if r.1 {
        assert(e.len() == 5 + nl);
        assert(parse_rec(s) == Some((r, (5 + nl) as nat)));
    } else {
        assert(e.len() == 13 + nl);
        assert(s.subrange(5 + nl, 13 + nl) =~= le_bytes(r.2 as nat, 8));
        assert(parse_rec(s) == Some((r, (13 + nl) as nat)));
    }
    assert(s.subrange(e.len() as int, s.len() as int) =~= rest);
}

/// Every path stands whole inside the encoding, so none is longer.
proof fn lemma_path_within(rs: Seq<Rec>, k: int)
    requires
        0 <= k < rs.len(),
    ensures
        rs[k].0.len() <= encode_all(rs).len(),
    decreases rs.len(),
{
    lemma_le_bytes_len(rs.last().0.len(), 4);
    if k < rs.len() - 1 {
        lemma_path_within(rs.drop_last(), k);
    }
}

/// Records written one after another are read back as the same records.
pub proof fn lemma_parse_encode_all(rs: Seq<Rec>)
    requires
        forall|k: int| 0 <= k < rs.len() ==> valid_rec(#[trigger] rs[k]),
    ensures
        parse_all(encode_all(rs)) == Some(rs),
    decreases rs.len(),
{
    if rs.len() == 0 {
        assert(encode_all(rs) =~= Seq::<u8>::empty());
    } else {
        let r = rs[0];
        let t = rs.drop_first();
        assert(rs =~= seq![r] + t);
        lemma_encode_all_append(seq![r], t);
        assert(seq![r].drop_last() =~= Seq::<Rec>::empty());
        assert(seq![r].last() == r);
        assert(encode_all(Seq::<Rec>::empty()) =~= Seq::<u8>::empty());
        assert(encode_all(seq![r]) =~= encode_rec(r));
        assert forall|k: int| 0 <= k < t.len() implies valid_rec(#[trigger] t[k]) by {
            assert(t[k] == rs[k + 1]);
        }
        lemma_parse_encode_all(t);
        lemma_parse_encoded_rec(r, encode_all(t));
    }
}

/// Directories are recorded with size 0 everywhere below `n`.
proof fn lemma_preorder_dir_sizes(n: WtarFile)
    ensures
        forall|k: int|
            0 <= k < preorder(n).len() ==> (#[trigger] preorder(n)[k]).1 ==> preorder(n)[k].2 == 0,
    decreases n, n.children@.len() + 1,
{
    if n.is_dir {
        let c = preorder_children(n, n.children@.len() as int);
        lemma_children_dir_sizes(n, n.children@.len() as int);
        assert forall|k: int| 0 <= k < preorder(n).len() implies !(#[trigger] preorder(n)[k]).1
            || preorder(n)[k].2 == 0 by {
            if k > 0 {
                assert(preorder(n)[k] == c[k - 1]);
            }
        }
    }
}

/// Directories are recorded with size 0 in the first `i` children of `n`.
proof fn lemma_children_dir_sizes(n: WtarFile, i: int)
    ensures
        forall|k: int|
            0 <= k < preorder_children(n, i).len() ==> (#[trigger] preorder_children(n, i)[k]).1
                ==> preorder_children(n, i)[k].2 == 0,
    decreases n, i,
{
    if 0 < i <= n.children@.len() {
        lemma_children_dir_sizes(n, i - 1);
        lemma_preorder_dir_sizes(n.children@[i - 1]);
        let a = preorder_children(n, i - 1);
        let b = preorder(n.children@[i - 1]);
        assert forall|k: int| 0 <= k < (a + b).len() implies !(#[trigger] (a + b)[k]).1 || (a
            + b)[k].2 == 0 by {
            if k >= a.len() {
                assert((a + b)[k] == b[k - a.len()]);
            }
        }
    }
}

/// Round trip: the metadata block of any tree whose block fits the length
/// prefix parses into exactly the tree's records, in pre-order: every path,
/// every directory flag, and every file size come back as they were.
pub proof fn lemma_round_trip(root: WtarFile)
    requires
        metadata_of(root).len() <= u32::MAX,
    ensures
        parse_all(metadata_of(root)) == Some(tree_records(root)),
{
    let rs = tree_records(root);
    lemma_children_dir_sizes(root, root.children@.len() as int);
    assert forall|k: int| 0 <= k < rs.len() implies valid_rec(#[trigger] rs[k]) by {
        lemma_path_within(rs, k);
    }
    lemma_parse_encode_all(rs);
}

} // verus!
