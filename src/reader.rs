//! Reading an archive head back: the length prefix, the entry records of the
//! metadata block, and where each file's contents start in the payload.
use vstd::prelude::*;
use crate::codec::{
    ArchiveError, le_value, pow256, lemma_le_value_bound, lemma_pow256_four, lemma_pow256_eight,
};
use crate::entry::Rec;

verus! {

/// The first record at the front of `s` and how many bytes it takes, if
/// `s` holds a whole one. A nonzero flag byte marks a directory.
pub open spec fn parse_rec(s: Seq<u8>) -> Option<(Rec, nat)> {
    if s.len() < 4 {
        None
    } else {
        let nl = le_value(s.subrange(0, 4)) as int;
        if s.len() < 5 + nl {
            None
        } else {
            let path = s.subrange(4, 4 + nl);
            if s[4 + nl] != 0 {
                Some(((path, true, 0u64), (5 + nl) as nat))
            } else if s.len() < 13 + nl {
                None
            } else {
                Some(((path, false, le_value(s.subrange(5 + nl, 13 + nl)) as u64), (13 + nl) as nat))
            }
        }
    }
}

/// The records that `s` splits into, if it splits into whole records.
pub open spec fn parse_all(s: Seq<u8>) -> Option<Seq<Rec>>
    decreases s.len(),
{
    if s.len() == 0 {
        Some(seq![])
    } else {
        match parse_rec(s) {
            None => None,
            Some((r, n)) => if 0 < n <= s.len() {
                match parse_all(s.subrange(n as int, s.len() as int)) {
                    None => None,
                    Some(t) => Some(seq![r] + t),
                }
            } else {
                None
            },
        }
    }
}

/// The total size of the records of `rs`.
pub open spec fn size_sum(rs: Seq<Rec>) -> nat
    decreases rs.len(),
{
    if rs.len() == 0 {
        0
    } else {
        size_sum(rs.drop_last()) + rs.last().2 as nat
    }
}

/// One entry to realize on extraction: the record, and the absolute offset
/// in the archive at which a file's contents start.
pub struct ExtractStep {
    pub path: Vec<u8>,
    pub is_dir: bool,
    pub size: u64,
    pub offset: u64,
}

impl ExtractStep {
    pub open spec fn rec(&self) -> Rec {
        (self.path@, self.is_dir, self.size)
    }
}

/// The number spelled by the `k` bytes of `b` from `pos`, least significant first.
pub fn read_le(b: &Vec<u8>, pos: usize, k: usize) -> (r: u64)
    requires
        k <= 8,
        pos + k <= b@.len(),
    ensures
        r as nat == le_value(b@.subrange(pos as int, pos + k)),
{
    let mut acc: u64 = 0;
    let mut i: usize = k;
    proof {
        assert(b@.subrange(pos + k, pos + k) =~= Seq::<u8>::empty());
    }
    while i > 0
        invariant
            i <= k <= 8,
            pos + k <= b@.len(),
            acc as nat == le_value(b@.subrange(pos + i, pos + k)),
        decreases i,
    {
        let ghost t = b@.subrange(pos + i, pos + k);
        let ghost s = b@.subrange(pos + i - 1, pos + k);
        proof {
            lemma_le_value_bound(t);
            lemma_pow256_le(t.len(), 7);
            lemma_pow256_eight();
            reveal_with_fuel(pow256, 8);
            assert(s.subrange(1, s.len() as int) =~= t);
        }
        let len = b.len();
        assert(pos + i <= len);
        acc = b[pos + (i - 1)] as u64 + 256 * acc;
        i = i - 1;
    }
    acc
}

/// `pow256` grows with its exponent.
proof fn lemma_pow256_le(a: nat, b: nat)
    requires
        a <= b,
    ensures
        pow256(a) <= pow256(b),
    decreases b,
{
    if a < b {
        lemma_pow256_le(a, (b - 1) as nat);
    }
}

/// A copy of the bytes of `b` in `start .. end`.
fn copy_range(b: &Vec<u8>, start: usize, end: usize) -> (r: Vec<u8>)
    requires
        start <= end <= b@.len(),
    ensures
        r@ == b@.subrange(start as int, end as int),
{
    let mut r: Vec<u8> = Vec::new();
    let mut i: usize = start;
    while i < end
        invariant
            start <= i <= end <= b@.len(),
            r@ == b@.subrange(start as int, i as int),
        decreases end - i,
    {
        r.push(b[i]);
        i = i + 1;
        assert(r@ =~= b@.subrange(start as int, i as int));
    }
    r
}

/// The metadata block length that the first four bytes of an archive give.
pub fn metadata_length(prefix: &Vec<u8>) -> (r: Result<u32, ArchiveError>)
    ensures
        r is Ok <==> prefix@.len() >= 4,
        r matches Ok(n) ==> n as nat == le_value(prefix@.subrange(0, 4)),
        r matches Err(e) ==> e == ArchiveError::Malformed,
{
    if prefix.len() < 4 {
        return Err(ArchiveError::Malformed);
    }
    let v = read_le(prefix, 0, 4);
    proof {
        lemma_le_value_bound(prefix@.subrange(0, 4));
        lemma_pow256_four();
    }
    Ok(v as u32)
}

/// The records of `steps`, in order.
pub open spec fn recs(steps: Seq<ExtractStep>) -> Seq<Rec> {
    steps.map_values(|st: ExtractStep| st.rec())
}

/// `done` followed by what `rest` parsed into, if it parsed.
pub open spec fn join(done: Seq<Rec>, rest: Option<Seq<Rec>>) -> Option<Seq<Rec>> {
    match rest {
        None => None,
        Some(t) => Some(done + t),
    }
}

/// The total size of two runs of records is the sum of theirs.
pub proof fn lemma_size_sum_append(a: Seq<Rec>, b: Seq<Rec>)
    ensures
        size_sum(a + b) == size_sum(a) + size_sum(b),
    decreases b.len(),
{
    if b.len() == 0 {
        assert(a + b =~= a);
    } else {
        lemma_size_sum_append(a, b.drop_last());
        assert((a + b).drop_last() =~= a + b.drop_last());
        assert((a + b).last() == b.last());
    }
}

/// Parsing a run of bytes takes off one whole record at its front.
proof fn lemma_parse_step(s: Seq<u8>, r: Rec, n: nat)
    requires
        s.len() > 0,
        parse_rec(s) == Some((r, n)),
        0 < n <= s.len(),
    ensures
        parse_all(s) == join(seq![r], parse_all(s.subrange(n as int, s.len() as int))),
{
}

/// The total size of one record is its size.
proof fn lemma_size_sum_single(r: Rec)
    ensures
        size_sum(seq![r]) == r.2,
{
    assert(seq![r].drop_last() =~= Seq::<Rec>::empty());
    assert(seq![r].last() == r);
    assert(size_sum(Seq::<Rec>::empty()) == 0);
    assert(size_sum(seq![r]) == size_sum(seq![r].drop_last()) + r.2 as nat);
}

/// Reads the record that starts at `pos`: its path, directory flag, size,
/// and how many bytes it takes; `None` where the bytes end inside it.
fn read_record(meta: &Vec<u8>, pos: usize) -> (r: Option<(Vec<u8>, bool, u64, usize)>)
    requires
        pos < meta@.len(),
    ensures
        ({
            let rest = meta@.subrange(pos as int, meta@.len() as int);
            match r {
                None => parse_rec(rest) is None,
                Some((path, is_dir, size, n)) => parse_rec(rest) == Some(
                    ((path@, is_dir, size), n as nat),
                ) && 0 < n <= rest.len(),
            }
        }),
{
    let len = meta.len();
    let ghost rest = meta@.subrange(pos as int, len as int);
    let remaining = len - pos;
    if remaining < 4 {
        return None;
    }
    let nl = read_le(meta, pos, 4);
    proof {
        assert(meta@.subrange(pos as int, pos + 4) =~= rest.subrange(0, 4));
        lemma_le_value_bound(rest.subrange(0, 4));
        lemma_pow256_four();
    }
    if ((remaining - 4) as u64) < nl + 1 {
        return None;
    }
    let nlu = nl as usize;
    let path = copy_range(meta, pos + 4, pos + 4 + nlu);
    assert(path@ =~= rest.subrange(4, 4 + nl));
    let flag = meta[pos + 4 + nlu];
    if flag != 0 {
        return Some((path, true, 0, 5 + nlu));
    }
    if remaining - 5 - nlu < 8 {
        return None;
    }
    let size = read_le(meta, pos + 5 + nlu, 8);
    assert(meta@.subrange(pos + 5 + nl, pos + 13 + nl) =~= rest.subrange(5 + nl, 13 + nl));
    Some((path, false, size, 13 + nlu))
}

/// Parses a metadata block into the entries to realize, in order, each with
/// the offset at which its contents start: the length of the prefix and the
/// block, plus the sizes of all the records before it.
pub fn parse_metadata(meta: &Vec<u8>) -> (r: Result<Vec<ExtractStep>, ArchiveError>)
    ensures
        r is Ok <==> (parse_all(meta@) is Some && meta@.len() + 4 + size_sum(
            parse_all(meta@)->0,
        ) <= u64::MAX),
        r matches Ok(steps) ==> parse_all(meta@) == Some(recs(steps@)),
        r matches Ok(steps) ==> forall|k: int|
            0 <= k < steps@.len() ==> #[trigger] steps@[k].offset == meta@.len() + 4 + size_sum(
                recs(steps@).take(k),
            ),
        r matches Err(e) ==> e == ArchiveError::Malformed,
{
    let len = meta.len();
    if len as u64 > u64::MAX - 4 {
        return Err(ArchiveError::Malformed);
    }
    let mut steps: Vec<ExtractStep> = Vec::new();
    let mut cur: u64 = len as u64 + 4;
    let mut pos: usize = 0;
    proof {
        assert(meta@.subrange(0, len as int) =~= meta@);
        assert(recs(steps@) =~= Seq::<Rec>::empty());
        match parse_all(meta@) {
            None => {},
            Some(t) => { assert(Seq::<Rec>::empty() + t =~= t); },
        }
    }
    while pos < len
        invariant
            len == meta@.len(),
            pos <= len,
            len + 4 <= u64::MAX,
            parse_all(meta@) == join(recs(steps@), parse_all(meta@.subrange(pos as int, len as int))),
            cur == len + 4 + size_sum(recs(steps@)),
            forall|k: int|
                0 <= k < steps@.len() ==> #[trigger] steps@[k].offset == len + 4 + size_sum(
                    recs(steps@).take(k),
                ),
        decreases len - pos,
    {
        let ghost rest = meta@.subrange(pos as int, len as int);
        let ghost done = recs(steps@);
        let rd = read_record(meta, pos);
        if rd.is_none() {
            return Err(ArchiveError::Malformed);
        }
        let (path, is_dir, size, n) = rd.unwrap();
        let ghost rec: Rec = (path@, is_dir, size);
        proof {
            lemma_parse_step(rest, rec, n as nat);
            assert(rest.subrange(n as int, rest.len() as int) =~= meta@.subrange(pos + n, len as int));
        }
        if size > u64::MAX - cur {
            proof {
                match parse_all(meta@.subrange(pos + n, len as int)) {
                    None => {},
                    Some(t) => {
                        let all = done + (seq![rec] + t);
                        assert(parse_all(meta@) == Some(all));
                        lemma_size_sum_append(done, seq![rec] + t);
                        lemma_size_sum_append(seq![rec], t);
                        lemma_size_sum_single(rec);
                    },
                }
            }
            return Err(ArchiveError::Malformed);
        }
        let step = ExtractStep { path, is_dir, size, offset: cur };
        steps.push(step);
        cur = cur + size;
        pos = pos + n;
        proof {
            let nd = recs(steps@);
            assert(nd =~= done.push(rec));
            assert(nd.drop_last() =~= done);
            assert forall|k: int| 0 <= k < steps@.len() implies #[trigger] steps@[k].offset == len + 4
                + size_sum(recs(steps@).take(k)) by {
                if k < steps@.len() - 1 {
                    assert(nd.take(k) =~= done.take(k));
                } else {
                    assert(nd.take(k) =~= done);
                }
            }
            match parse_all(meta@.subrange(pos as int, len as int)) {
                None => {},
                Some(t) => {
                    assert(done + (seq![rec] + t) =~= nd + t);
                },
            }
        }
    }
    proof {
        assert(meta@.subrange(len as int, len as int) =~= Seq::<u8>::empty());
        assert(recs(steps@) + Seq::<Rec>::empty() =~= recs(steps@));
    }
    Ok(steps)
}

} // verus!
