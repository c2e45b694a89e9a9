use vstd::prelude::*;

use crate::codec::{
    bodies_fit, le_u32, log_records, parse_record, record_bytes, record_head, records_bytes, u32_le,
};

verus! {

/// Four bytes read as a `u32` are that `u32`'s encoding.
pub proof fn lemma_le_u32_bytes(s: Seq<u8>, pos: int)
    requires
        0 <= pos,
        pos + 4 <= s.len(),
    ensures
        u32_le(le_u32(s, pos)) == s.subrange(pos, pos + 4),
{
    let b0 = s[pos];
    let b1 = s[pos + 1];
    let b2 = s[pos + 2];
    let b3 = s[pos + 3];
    let x = le_u32(s, pos);
    assert(x == (b0 as u32) | ((b1 as u32) << 8u32) | ((b2 as u32) << 16u32) | ((b3 as u32)
        << 24u32) ==> (x & 0xff) as u8 == b0 && ((x >> 8u32) & 0xff) as u8 == b1 && ((x >> 16u32)
        & 0xff) as u8 == b2 && ((x >> 24u32) & 0xff) as u8 == b3) by (bit_vector);
    assert(u32_le(x) =~= s.subrange(pos, pos + 4));
}

/// A record that reads is its own encoding, in place.
pub proof fn lemma_parsed_bytes(s: Seq<u8>, pos: int)
    requires
        parse_record(s, pos) is Some,
    ensures
        ({
            let (k, b, next) = parse_record(s, pos).unwrap();
            &&& b.len() < 4294967296
            &&& next == pos + record_bytes(k, b).len()
            &&& next <= s.len()
            &&& s.subrange(pos, next) == record_bytes(k, b)
        }),
{
    let (k, b, next) = parse_record(s, pos).unwrap();
    let n = le_u32(s, pos + 1) as int;
    lemma_le_u32_bytes(s, pos + 1);
    lemma_le_u32_bytes(s, pos + 5 + n);
    assert(b.len() == n);
    assert(s.subrange(pos, pos + 5 + n) =~= record_head(k, b));
    assert(s.subrange(pos, next) =~= record_bytes(k, b));
}

/// The bytes of records, one more appended.
pub proof fn lemma_records_bytes_push(rs: Seq<(u8, Seq<u8>)>, x: (u8, Seq<u8>))
    ensures
        records_bytes(rs.push(x)) == records_bytes(rs) + record_bytes(x.0, x.1),
    decreases rs.len(),
{
    if rs.len() == 0 {
        let one = rs.push(x);
        assert(one[0] == x);
        assert(one.subrange(1, 1) =~= Seq::<(u8, Seq<u8>)>::empty());
        assert(records_bytes(one.subrange(1, 1)) =~= Seq::<u8>::empty());
        assert(records_bytes(one) == record_bytes(x.0, x.1) + records_bytes(one.subrange(1, 1)));
        assert(records_bytes(rs) =~= Seq::<u8>::empty());
        assert(records_bytes(rs.push(x)) =~= records_bytes(rs) + record_bytes(x.0, x.1));
    } else {
        let t = rs.subrange(1, rs.len() as int);
        lemma_records_bytes_push(t, x);
        assert(rs.push(x).subrange(1, rs.len() as int + 1) =~= t.push(x));
        assert(records_bytes(rs.push(x)) =~= records_bytes(rs) + record_bytes(x.0, x.1));
    }
}

/// The first `m` records read from `pos` stand, encoded, right at `pos`.
pub proof fn lemma_log_prefix(s: Seq<u8>, pos: int, m: int)
    requires
        0 <= pos <= s.len(),
        0 <= m <= log_records(s, pos).len(),
    ensures
        bodies_fit(log_records(s, pos).subrange(0, m)),
        pos + records_bytes(log_records(s, pos).subrange(0, m)).len() <= s.len(),
        s.subrange(pos, pos + records_bytes(log_records(s, pos).subrange(0, m)).len())
            == records_bytes(log_records(s, pos).subrange(0, m)),
    decreases s.len() - pos, m,
{
    let lr = log_records(s, pos);
    let pre = lr.subrange(0, m);
    if m == 0 {
        assert(records_bytes(pre) =~= Seq::<u8>::empty());
        assert(s.subrange(pos, pos) =~= Seq::<u8>::empty());
    } else {
        let (k, b, next) = parse_record(s, pos).unwrap();
        lemma_parsed_bytes(s, pos);
        let rest = log_records(s, next);
        assert(lr == seq![(k, b)] + rest);
        lemma_log_prefix(s, next, m - 1);
        let rp = rest.subrange(0, m - 1);
        assert(pre =~= seq![(k, b)] + rp);
        assert(pre[0] == (k, b));
        assert(pre.subrange(1, m) =~= rp);
        assert(records_bytes(pre) == record_bytes(k, b) + records_bytes(rp));
        assert(s.subrange(pos, pos + records_bytes(pre).len()) =~= s.subrange(pos, next)
            + s.subrange(next, next + records_bytes(rp).len()));
        assert forall|i: int| 0 <= i < pre.len() implies (#[trigger] pre[i]).1.len()
            < 4294967296 by {
            if i > 0 {
                assert(pre[i] == rp[i - 1]);
            }
        }
    }
}

} // verus!
