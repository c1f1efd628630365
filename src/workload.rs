//! The records that the writer produces: key `key=<t>` and value `val=<t>`,
//! with `t` the Unix time in seconds written in decimal.
use vstd::prelude::*;
use crate::codec::{KV, encodable};
use crate::segment::{all_encodable, fields_of};

verus! {

/// The decimal digits of `n`, most significant first, as ASCII bytes.
pub open spec fn decimal(n: nat) -> Seq<u8>
    decreases n,
{
    if n < 10 {
        seq![(48 + n) as u8]
    } else {
        decimal(n / 10).push((48 + n % 10) as u8)
    }
}

/// A non-empty run of ASCII digits.
pub open spec fn is_digits(s: Seq<u8>) -> bool {
    s.len() > 0 && forall|i: int| 0 <= i < s.len() ==> 48 <= #[trigger] s[i] <= 57
}

/// `key=`
pub open spec fn key_prefix() -> Seq<u8> {
    seq![107u8, 101, 121, 61]
}

/// `val=`
pub open spec fn val_prefix() -> Seq<u8> {
    seq![118u8, 97, 108, 61]
}

/// The record generated at time `t`.
pub open spec fn record_at(t: nat) -> (Seq<u8>, Seq<u8>) {
    (key_prefix() + decimal(t), val_prefix() + decimal(t))
}

/// Whether `k`/`v` is a record that the generator makes at some time.
pub open spec fn is_generated(k: Seq<u8>, v: Seq<u8>) -> bool {
    exists|t: u64| #[trigger] record_at(t as nat) == (k, v)
}

spec fn pow10(k: nat) -> nat
    decreases k,
{
    if k == 0 {
        1
    } else {
        10 * pow10((k - 1) as nat)
    }
}

proof fn lemma_decimal_len(n: nat, k: nat)
    requires
        1 <= k,
        n < pow10(k),
    ensures
        decimal(n).len() <= k,
    decreases n,
{
    reveal_with_fuel(pow10, 2);
    if n >= 10 {
        let p = pow10((k - 1) as nat);
        assert(n / 10 < p) by (nonlinear_arith)
            requires
                n < 10 * p,
        ;
        lemma_decimal_len(n / 10, (k - 1) as nat);
    }
}

/// The decimal form of a `u64` is a run of at most twenty digits.
pub proof fn lemma_decimal_digits(n: u64)
    ensures
        is_digits(decimal(n as nat)),
        decimal(n as nat).len() <= 20,
{
    lemma_decimal_is_digits(n as nat);
    reveal_with_fuel(pow10, 21);
    assert(n < pow10(20));
    lemma_decimal_len(n as nat, 20);
}

proof fn lemma_decimal_is_digits(n: nat)
    ensures
        is_digits(decimal(n)),
    decreases n,
{
    if n >= 10 {
        lemma_decimal_is_digits(n / 10);
        let d = decimal(n / 10);
        assert forall|i: int| 0 <= i < decimal(n).len() implies 48 <= #[trigger] decimal(n)[i]
            <= 57 by {
            if i < d.len() {
                assert(decimal(n)[i] == d[i]);
            }
        }
    }
}

/// Appends the decimal digits of `n` to `out`.
fn push_decimal(n: u64, out: &mut Vec<u8>)
    ensures
        final(out)@ == old(out)@ + decimal(n as nat),
    decreases n,
{
    if n >= 10 {
        push_decimal(n / 10, out);
    }
    out.push(48 + (n % 10) as u8);
    assert(final(out)@ =~= old(out)@ + decimal(n as nat));
}

/// The record generated at time `t`: key `key=<t>` and value `val=<t>`.
pub fn record_for(t: u64) -> (r: KV)
    ensures
        (r.key@, r.val@) == record_at(t as nat),
        is_digits(decimal(t as nat)),
        encodable(r.key@, r.val@),
{
    let mut key: Vec<u8> = vec![107u8, 101, 121, 61];
    let mut val: Vec<u8> = vec![118u8, 97, 108, 61];
    assert(key@ =~= key_prefix());
    assert(val@ =~= val_prefix());
    push_decimal(t, &mut key);
    push_decimal(t, &mut val);
    proof {
        lemma_decimal_digits(t);
    }
    KV { key, val }
}

/// The current Unix time in whole seconds; 0 when the clock reads earlier
/// than the epoch.
///
/// Relies on `std::time::SystemTime::now` and `SystemTime::duration_since`.
/// Nothing is promised of the value: it depends on the clock.
#[verifier::external_body]
pub fn millis() -> (r: u64) {
    match std::time::SystemTime::now().duration_since(std::time::UNIX_EPOCH) {
        Ok(d) => d.as_secs(),
        Err(_) => 0,
    }
}

/// A record for the current time.
pub fn kv() -> (r: KV)
    ensures
        is_generated(r.key@, r.val@),
        encodable(r.key@, r.val@),
{
    let t = millis();
    let r = record_for(t);
    assert(record_at(t as nat) == (r.key@, r.val@));
    r
}

/// `n` records, each for the time at which it was made.
pub fn generate_records(n: usize) -> (r: Vec<KV>)
    ensures
        r.len() == n,
        all_encodable(fields_of(r@)),
        forall|i: int| 0 <= i < n ==> is_generated(#[trigger] r@[i].key@, r@[i].val@),
{
    let mut out: Vec<KV> = Vec::new();
    let mut i: usize = 0;
    while i < n
        invariant
            i <= n,
            out.len() == i,
            forall|j: int| 0 <= j < i ==> is_generated(#[trigger] out@[j].key@, out@[j].val@)
                && encodable(out@[j].key@, out@[j].val@),
        decreases n - i,
    {
        out.push(kv());
        i = i + 1;
    }
    assert forall|j: int| 0 <= j < fields_of(out@).len() implies encodable(
        #[trigger] fields_of(out@)[j].0,
        fields_of(out@)[j].1,
    ) by {
        assert(fields_of(out@)[j] == (out@[j].key@, out@[j].val@));
    }
    out
}

} // verus!
