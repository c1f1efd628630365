//! A run of records laid end to end in one byte region: the writer encodes
//! them from offset 0 on, the reader decodes the same number from offset 0 on,
//! and the two lists are then compared position by position.
use vstd::prelude::*;
use crate::bytes::splice;
use crate::codec::{KV, CodecError, encode, encodable, decode_at, lemma_decode_encoded};

verus! {

/// A record as its key and value bytes.
pub type Fields = (Seq<u8>, Seq<u8>);

pub open spec fn fields_of(rs: Seq<KV>) -> Seq<Fields> {
    rs.map_values(|r: KV| (r.key@, r.val@))
}

pub open spec fn all_encodable(rs: Seq<Fields>) -> bool {
    forall|i: int| 0 <= i < rs.len() ==> encodable(#[trigger] rs[i].0, rs[i].1)
}

/// The records of `rs` encoded one after another.
pub open spec fn encode_all(rs: Seq<Fields>) -> Seq<u8>
    decreases rs.len(),
{
    if rs.len() == 0 {
        Seq::empty()
    } else {
        encode_all(rs.drop_last()) + encode(rs.last().0, rs.last().1)
    }
}

/// The first `n` records decoded from offset 0 of `s`, with the offset just
/// past the last of them, or `None` when `s` ends before the `n`-th does.
pub open spec fn decode_many(s: Seq<u8>, n: nat) -> Option<(Seq<Fields>, int)>
    decreases n,
{
    if n == 0 {
        Some((Seq::empty(), 0))
    } else {
        match decode_many(s, (n - 1) as nat) {
            Some((rs, p)) => match decode_at(s, p) {
                Some((k, v, end)) => Some((rs.push((k, v)), end)),
                None => None,
            },
            None => None,
        }
    }
}

/// How many of the first `n` positions hold equal records in `a` and `b`.
pub open spec fn match_count(a: Seq<Fields>, b: Seq<Fields>, n: nat) -> nat
    decreases n,
{
    if n == 0 {
        0
    } else {
        match_count(a, b, (n - 1) as nat) + if a[n - 1] == b[n - 1] {
            1nat
        } else {
            0nat
        }
    }
}

/// How many positions that both lists have hold equal records.
pub open spec fn matches(a: Seq<Fields>, b: Seq<Fields>) -> nat {
    match_count(a, b, if a.len() <= b.len() { a.len() } else { b.len() })
}

proof fn lemma_decode_many_fails_on(s: Seq<u8>, i: nat, n: nat)
    requires
        i <= n,
        decode_many(s, i) is None,
    ensures
        decode_many(s, n) is None,
    decreases n - i,
{
    if i < n {
        lemma_decode_many_fails_on(s, i, (n - 1) as nat);
    }
}

proof fn lemma_decode_many_in_bounds(s: Seq<u8>, n: nat)
    ensures
        decode_many(s, n) matches Some((rs, p)) ==> 0 <= p <= s.len() && rs.len() == n,
    decreases n,
{
    if n > 0 {
        lemma_decode_many_in_bounds(s, (n - 1) as nat);
    }
}

proof fn lemma_match_count_upto(a: Seq<Fields>, b: Seq<Fields>, n: nat)
    requires
        n <= a.len(),
        n <= b.len(),
    ensures
        match_count(a, b, n) <= n,
        match_count(a, b, n) == n <==> forall|i: int| 0 <= i < n ==> a[i] == b[i],
    decreases n,
{
    if n > 0 {
        lemma_match_count_upto(a, b, (n - 1) as nat);
        if match_count(a, b, n) == n {
            assert forall|i: int| 0 <= i < n implies a[i] == b[i] by {
                if i < n - 1 {
                }
            }
        }
    }
}

/// Comparing two runs of `n` records gives a match count between 0 and `n`,
/// and gives `n` exactly when the runs agree at every position.
pub proof fn lemma_match_count_bound(a: Seq<Fields>, b: Seq<Fields>)
    requires
        a.len() == b.len(),
    ensures
        0 <= matches(a, b) <= a.len(),
        matches(a, b) == a.len() <==> a == b,
{
    lemma_match_count_upto(a, b, a.len());
    if matches(a, b) == a.len() {
        assert(a =~= b);
    }
}

/// Where a region begins with the encoding of `rs`, decoding `rs.len()`
/// records from it gives back `rs` and stops just past their bytes.
pub proof fn lemma_read_back(rs: Seq<Fields>, s: Seq<u8>)
    requires
        all_encodable(rs),
        encode_all(rs).len() <= s.len(),
        s.take(encode_all(rs).len() as int) == encode_all(rs),
    ensures
        decode_many(s, rs.len()) == Some((rs, encode_all(rs).len() as int)),
    decreases rs.len(),
{
    if rs.len() > 0 {
        let init = rs.drop_last();
        let (k, v) = rs.last();
        let p = encode_all(init).len() as int;
        let e = encode(k, v);
        assert(encode_all(rs) == encode_all(init) + e);
        assert(s.take(p) =~= encode_all(rs).take(p));
        assert(encode_all(rs).take(p) =~= encode_all(init));
        assert(all_encodable(init)) by {
            assert forall|i: int| 0 <= i < init.len() implies encodable(#[trigger] init[i].0,
                init[i].1) by {
                assert(init[i] == rs[i]);
            }
        }
        lemma_read_back(init, s);
        assert(encodable(rs[rs.len() - 1].0, rs[rs.len() - 1].1));
        assert(s.subrange(p, p + e.len()) =~= e) by {
            assert(s.take(encode_all(rs).len() as int).subrange(p, p + e.len()) =~= e);
        }
        assert(splice(s, p, e) =~= s);
        lemma_decode_encoded(s, p, k, v);
        assert(init.push((k, v)) =~= rs);
    }
}

/// Reading back what was written: the records come back as they went in, so
/// the two runs match at every position.
pub proof fn lemma_written_then_read(rs: Seq<Fields>, s: Seq<u8>)
    requires
        all_encodable(rs),
        encode_all(rs).len() <= s.len(),
        s.take(encode_all(rs).len() as int) == encode_all(rs),
    ensures
        decode_many(s, rs.len()) matches Some((out, p)) && matches(rs, out) == rs.len() && p
            == encode_all(rs).len(),
{
    lemma_read_back(rs, s);
    lemma_match_count_bound(rs, rs);
}

/// The writer's side: encodes `records` one after another from offset 0 of
/// `buf` and returns the offset just past the last. When a record does not
/// fit, stops with `OutOfSpace`, leaving the records before it written and
/// nothing of the one that did not fit.
pub fn write_records(records: &Vec<KV>, buf: &mut [u8]) -> (r: Result<usize, CodecError>)
    requires
        all_encodable(fields_of(records@)),
    ensures
        match r {
            Ok(p) => p == encode_all(fields_of(records@)).len() && p <= old(buf)@.len()
                && final(buf)@ == splice(old(buf)@, 0, encode_all(fields_of(records@))),
            Err(e) => e == CodecError::OutOfSpace && encode_all(fields_of(records@)).len()
                > old(buf)@.len() && exists|j: int|
                0 <= j < records.len() && #[trigger] encode_all(fields_of(records@).take(j)).len()
                    <= old(buf)@.len() < encode_all(fields_of(records@).take(j + 1)).len()
                    && final(buf)@ == splice(old(buf)@, 0, encode_all(fields_of(records@).take(j))),
        },
{
    let ghost fs = fields_of(records@);
    let ghost s0 = buf@;
    let mut pos: usize = 0;
    let mut i: usize = 0;
    assert(fs.take(0) =~= Seq::<Fields>::empty());
    while i < records.len()
        invariant
            fs == fields_of(records@),
            s0 == old(buf)@,
            all_encodable(fs),
            i <= records.len(),
            pos == encode_all(fs.take(i as int)).len(),
            pos <= s0.len(),
            buf@ == splice(s0, 0, encode_all(fs.take(i as int))),
        decreases records.len() - i,
    {
        assert(fs.take(i + 1).drop_last() =~= fs.take(i as int));
        assert(fs[i as int] == (records[i as int].key@, records[i as int].val@));
        assert(encodable(fs[i as int].0, fs[i as int].1));
        match records[i].write(buf, pos) {
            Ok(p) => {
                assert(buf@ =~= splice(s0, 0, encode_all(fs.take(i + 1))));
                pos = p;
            },
            Err(e) => {
                proof {
                    lemma_encode_all_grows(fs, i + 1);
                    assert(fs.take(fs.len() as int) =~= fs);
                }
                return Err(e);
            },
        }
        i = i + 1;
    }
    assert(fs.take(records.len() as int) =~= fs);
    Ok(pos)
}

proof fn lemma_encode_all_grows(rs: Seq<Fields>, j: int)
    requires
        0 <= j <= rs.len(),
    ensures
        encode_all(rs.take(j)).len() <= encode_all(rs).len(),
    decreases rs.len() - j,
{
    if j < rs.len() {
        lemma_encode_all_grows(rs, j + 1);
        assert(rs.take(j + 1).drop_last() =~= rs.take(j));
    }
    else {
        assert(rs.take(j) =~= rs);
    }
}

/// The reader's side: decodes `n` records one after another from offset 0 of
/// `buf`, whatever bytes it holds, and returns them with the offset just past
/// the last; fails with `Truncated` when `buf` ends before the `n`-th does.
pub fn read_records(buf: &[u8], n: usize) -> (r: Result<(Vec<KV>, usize), CodecError>)
    ensures
        match decode_many(buf@, n as nat) {
            Some((rs, p)) => r matches Ok((out, q)) && fields_of(out@) == rs && q == p,
            None => r == Err::<(Vec<KV>, usize), CodecError>(CodecError::Truncated),
        },
{
    let mut out: Vec<KV> = Vec::new();
    let mut pos: usize = 0;
    let mut i: usize = 0;
    assert(fields_of(out@) =~= Seq::<Fields>::empty());
    while i < n
        invariant
            i <= n,
            pos <= buf@.len(),
            decode_many(buf@, i as nat) == Some((fields_of(out@), pos as int)),
        decreases n - i,
    {
        match KV::read(buf, pos) {
            Ok((kv, p)) => {
                let ghost prev = out@;
                out.push(kv);
                assert(fields_of(out@) =~= fields_of(prev).push((kv.key@, kv.val@)));
                pos = p;
            },
            Err(e) => {
                proof {
                    lemma_decode_many_fails_on(buf@, (i + 1) as nat, n as nat);
                }
                return Err(e);
            },
        }
        i = i + 1;
    }
    Ok((out, pos))
}

/// How many positions that both `a` and `b` have hold equal records.
pub fn count_matches(a: &Vec<KV>, b: &Vec<KV>) -> (r: usize)
    ensures
        r == matches(fields_of(a@), fields_of(b@)),
{
    let n = if a.len() <= b.len() {
        a.len()
    } else {
        b.len()
    };
    let ghost fa = fields_of(a@);
    let ghost fb = fields_of(b@);
    let mut count: usize = 0;
    let mut i: usize = 0;
    while i < n
        invariant
            fa == fields_of(a@),
            fb == fields_of(b@),
            n <= a.len(),
            n <= b.len(),
            i <= n,
            count == match_count(fa, fb, i as nat),
        decreases n - i,
    {
        proof {
            lemma_match_count_upto(fa, fb, i as nat);
        }
        assert(fa[i as int] == (a[i as int].key@, a[i as int].val@));
        assert(fb[i as int] == (b[i as int].key@, b[i as int].val@));
        if a[i] == b[i] {
            count = count + 1;
        }
        i = i + 1;
    }
    count
}

} // verus!
