//! Helpers around the engine: grouping of quotes by maturity, copying of
//! borrowed quotes, and the conversion between token symbols and the
//! 32-byte, zero-padded form a lending protocol uses on the wire.

use vstd::prelude::*;

use crate::engine::Order;
use vstd::string::StringSliceAdditionalSpecFns;
use vstd::utf8::{decode_utf8, valid_utf8};

verus! {

broadcast use vstd::array::group_array_axioms;

/// The quotes of `s` with maturity `m`, in their original order.
pub open spec fn filter_maturity(s: Seq<Order>, m: u64) -> Seq<Order>
    decreases s.len(),
{
    if s.len() == 0 {
        Seq::empty()
    } else if s.last().maturity == m {
        filter_maturity(s.drop_last(), m).push(s.last())
    } else {
        filter_maturity(s.drop_last(), m)
    }
}

/// Whether some quote of `s` has maturity `m`.
pub open spec fn has_maturity(s: Seq<Order>, m: u64) -> bool {
    exists|i: int| 0 <= i < s.len() && (#[trigger] s[i]).maturity == m
}

/// The distinct maturities of `s`, each at the position of its first
/// occurrence.
pub open spec fn maturities_in_order(s: Seq<Order>) -> Seq<u64>
    decreases s.len(),
{
    if s.len() == 0 {
        Seq::empty()
    } else {
        let rest = maturities_in_order(s.drop_last());
        if rest.contains(s.last().maturity) {
            rest
        } else {
            rest.push(s.last().maturity)
        }
    }
}

/// A maturity no quote of `s` carries selects the empty bucket.
pub proof fn lemma_filter_maturity_empty(s: Seq<Order>, m: u64)
    requires
        !has_maturity(s, m),
    ensures
        filter_maturity(s, m) == Seq::<Order>::empty(),
    decreases s.len(),
{
    if s.len() > 0 {
        assert(forall|i: int|
            0 <= i < s.drop_last().len() ==> (#[trigger] s.drop_last()[i]).maturity
                != m) by {
            assert(forall|i: int|
                0 <= i < s.drop_last().len() ==> s.drop_last()[i] == s[i]);
        }
        lemma_filter_maturity_empty(s.drop_last(), m);
        assert(s.last() == s[s.len() - 1]);
    }
}

/// Partition of a snapshot of quotes into its maturity buckets.
///
/// Each bucket holds exactly the quotes with its maturity, in input order;
/// the keys are distinct, are exactly the maturities occurring in the
/// input, and stand in first-occurrence order.
pub fn group_by(orders: &Vec<Order>) -> (groups: Vec<(u64, Vec<Order>)>)
    ensures
        forall|a: int, b: int|
            0 <= a < b < groups@.len() ==> (#[trigger] groups@[a]).0 != (#[trigger] groups@[b]).0,
        forall|k: int|
            0 <= k < groups@.len() ==> (#[trigger] groups@[k]).1@ == filter_maturity(
                orders@,
                groups@[k].0,
            ),
        forall|m: u64|
            has_maturity(orders@, m) <==> exists|k: int|
                0 <= k < groups@.len() && (#[trigger] groups@[k]).0 == m,
        groups@.len() == maturities_in_order(orders@).len(),
        forall|k: int|
            0 <= k < groups@.len() ==> (#[trigger] groups@[k]).0 == maturities_in_order(orders@)[k],
{
    let mut groups: Vec<(u64, Vec<Order>)> = Vec::new();
    let mut i: usize = 0;
    while i < orders.len()
        invariant
            i <= orders@.len(),
            forall|a: int, b: int|
                0 <= a < b < groups@.len() ==> (#[trigger] groups@[a]).0 != (
                #[trigger] groups@[b]).0,
            forall|k: int|
                0 <= k < groups@.len() ==> (#[trigger] groups@[k]).1@ == filter_maturity(
                    orders@.take(i as int),
                    groups@[k].0,
                ),
            forall|m: u64|
                has_maturity(orders@.take(i as int), m) <==> exists|k: int|
                    0 <= k < groups@.len() && (#[trigger] groups@[k]).0 == m,
            groups@.len() == maturities_in_order(orders@.take(i as int)).len(),
            forall|k: int|
                0 <= k < groups@.len() ==> (#[trigger] groups@[k]).0 == maturities_in_order(
                    orders@.take(i as int),
                )[k],
        decreases orders@.len() - i,
    {
        let o = &orders[i];
        proof {
            assert(orders@.take(i as int + 1).drop_last() =~= orders@.take(i as int));
            assert(orders@.take(i as int + 1).last() == orders@[i as int]);
        }
        let n = groups.len();
        let mut idx: usize = n;
        let mut j: usize = 0;
        while j < n && idx == n
            invariant
                j <= n,
                idx <= n,
                n == groups@.len(),
                idx == n ==> forall|t: int|
                    0 <= t < j ==> (#[trigger] groups@[t]).0 != o.maturity,
                idx < n ==> groups@[idx as int].0 == o.maturity,
            decreases n - j,
        {
            if groups[j].0 == o.maturity {
                idx = j;
            }
            j = j + 1;
        }
        proof {
            assert forall|m: u64| has_maturity(orders@.take(i as int + 1), m) implies (
            has_maturity(orders@.take(i as int), m) || m == o.maturity) by {
                let w = choose|t: int|
                    0 <= t < orders@.take(i as int + 1).len() && (#[trigger] orders@.take(
                        i as int + 1,
                    )[t]).maturity == m;
                if w < i {
                    assert(orders@.take(i as int)[w].maturity == m);
                }
            }
            assert forall|m: u64| has_maturity(orders@.take(i as int), m) implies has_maturity(
                orders@.take(i as int + 1),
                m,
            ) by {
                let w = choose|t: int|
                    0 <= t < orders@.take(i as int).len() && (#[trigger] orders@.take(
                        i as int,
                    )[t]).maturity == m;
                assert(orders@.take(i as int + 1)[w].maturity == m);
            }
            assert(orders@.take(i as int + 1)[i as int].maturity == o.maturity);
            assert(has_maturity(orders@.take(i as int + 1), o.maturity));
        }
        let ghost g0 = groups@;
        if idx < groups.len() {
            let mut pair = groups.remove(idx);
            pair.1.push(o.clone());
            let ghost pf = pair;
            groups.insert(idx, pair);
            proof {
                assert(groups@ =~= g0.update(idx as int, pf));
                assert(pf.0 == g0[idx as int].0);
                assert(pf.1@ == g0[idx as int].1@.push(orders@[i as int]));
                assert(forall|k: int|
                    0 <= k < groups@.len() ==> (#[trigger] groups@[k]).0 == g0[k].0);
                assert(groups@[idx as int].0 == o.maturity);
                assert(maturities_in_order(orders@.take(i as int))[idx as int] == o.maturity);
                assert(maturities_in_order(orders@.take(i as int)).contains(o.maturity));
                assert forall|m: u64| #[trigger] has_maturity(orders@.take(i as int + 1), m) implies exists|
                    k: int,
                |
                    0 <= k < groups@.len() && (#[trigger] groups@[k]).0 == m by {
                    if m == o.maturity {
                        assert(groups@[idx as int].0 == m);
                    } else {
                        assert(has_maturity(orders@.take(i as int), m));
                        let k = choose|k: int| 0 <= k < g0.len() && (#[trigger] g0[k]).0 == m;
                        assert(groups@[k].0 == m);
                    }
                }
                assert forall|m: u64|
                    (exists|k: int|
                        0 <= k < groups@.len() && (#[trigger] groups@[k]).0
                            == m) implies #[trigger] has_maturity(orders@.take(i as int + 1), m) by {
                    let k = choose|k: int|
                        0 <= k < groups@.len() && (#[trigger] groups@[k]).0 == m;
                    assert(g0[k].0 == m);
                    assert(has_maturity(orders@.take(i as int), m));
                }
            }
        } else {
            proof {
                assert(!has_maturity(orders@.take(i as int), o.maturity));
                lemma_filter_maturity_empty(orders@.take(i as int), o.maturity);
                let mats = maturities_in_order(orders@.take(i as int));
                assert(!mats.contains(o.maturity)) by {
                    if mats.contains(o.maturity) {
                        let w = choose|w: int| 0 <= w < mats.len() && mats[w] == o.maturity;
                        assert(groups@[w].0 == o.maturity);
                    }
                }
            }
            let mut bucket: Vec<Order> = Vec::new();
            bucket.push(o.clone());
            groups.push((o.maturity, bucket));
            proof {
                assert(forall|k: int| 0 <= k < g0.len() ==> groups@[k] == g0[k]);
                assert(groups@[g0.len() as int].0 == o.maturity);
                assert forall|m: u64| #[trigger] has_maturity(orders@.take(i as int + 1), m) implies exists|
                    k: int,
                |
                    0 <= k < groups@.len() && (#[trigger] groups@[k]).0 == m by {
                    if m == o.maturity {
                        assert(groups@[g0.len() as int].0 == m);
                    } else {
                        assert(has_maturity(orders@.take(i as int), m));
                        let k = choose|k: int| 0 <= k < g0.len() && (#[trigger] g0[k]).0 == m;
                        assert(groups@[k].0 == m);
                    }
                }
                assert forall|m: u64|
                    (exists|k: int|
                        0 <= k < groups@.len() && (#[trigger] groups@[k]).0
                            == m) implies #[trigger] has_maturity(orders@.take(i as int + 1), m) by {
                    let k = choose|k: int|
                        0 <= k < groups@.len() && (#[trigger] groups@[k]).0 == m;
                    if k < g0.len() {
                        assert(g0[k].0 == m);
                        assert(has_maturity(orders@.take(i as int), m));
                    } else {
                        assert(m == o.maturity);
                    }
                }
            }
        }
        i = i + 1;
    }
    proof {
        assert(orders@.take(orders@.len() as int) =~= orders@);
    }
    groups
}

/// Owned copies of a vector of borrowed quotes, in order.
pub fn to_ref(data_refs: Vec<&Order>) -> (data: Vec<Order>)
    ensures
        data@.len() == data_refs@.len(),
        forall|i: int| 0 <= i < data@.len() ==> data@[i] == *data_refs@[i],
{
    let mut data: Vec<Order> = Vec::new();
    let mut i: usize = 0;
    while i < data_refs.len()
        invariant
            i <= data_refs@.len(),
            data@.len() == i,
            forall|k: int| 0 <= k < i ==> data@[k] == *data_refs@[k],
        decreases data_refs@.len() - i,
    {
        let r: &Order = data_refs[i];
        data.push(r.clone());
        i = i + 1;
    }
    data
}

/// Index of the first zero byte of `s`, or its length if none occurs: the
/// length of the meaningful prefix of a zero-padded 32-byte symbol.
pub open spec fn first_zero(s: Seq<u8>) -> int
    decreases s.len(),
{
    if s.len() == 0 {
        0
    } else if s[0] == 0 {
        0
    } else {
        1 + first_zero(s.drop_first())
    }
}

/// Characterization of [`first_zero`]: it is in range, every byte before it
/// is non-zero, and it points at a zero byte unless it is the length.
pub proof fn lemma_first_zero(s: Seq<u8>)
    ensures
        0 <= first_zero(s) <= s.len(),
        forall|t: int| 0 <= t < first_zero(s) ==> s[t] != 0,
        first_zero(s) < s.len() ==> s[first_zero(s)] == 0,
    decreases s.len(),
{
    if s.len() > 0 && s[0] != 0 {
        lemma_first_zero(s.drop_first());
        assert forall|t: int| 0 <= t < first_zero(s) implies s[t] != 0 by {
            if t > 0 {
                assert(s.drop_first()[t - 1] == s[t]);
                assert(s.drop_first()[t - 1] != 0);
            }
        }
        if first_zero(s) < s.len() {
            assert(s.drop_first()[first_zero(s) - 1] == s[first_zero(s)]);
        }
    }
}

/// Declares core::str::Utf8Error, the error a failed UTF-8 decode returns,
/// as an opaque type; it is only carried through, never inspected.
#[verifier::external_type_specification]
#[verifier::external_body]
pub struct ExUtf8Error(core::str::Utf8Error);

/// Relies on core::str::from_utf8: it succeeds exactly on valid UTF-8, and
/// then returns the decoded characters of the input bytes.
pub assume_specification[ core::str::from_utf8 ](v: &[u8]) -> (res: Result<
    &str,
    core::str::Utf8Error,
>)
    ensures
        res is Ok <==> valid_utf8(v@),
        res matches Ok(s) ==> s@ == decode_utf8(v@),
;

/// The token symbol held in a zero-padded 32-byte wire value: the bytes up
/// to the first zero, decoded as UTF-8.  Fails exactly when that prefix is
/// not valid UTF-8.
pub fn bytes32_to_string(bytes: &[u8; 32]) -> (res: Result<String, core::str::Utf8Error>)
    ensures
        res is Ok <==> valid_utf8(bytes@.take(first_zero(bytes@))),
        res matches Ok(s) ==> s@ == decode_utf8(bytes@.take(first_zero(bytes@))),
{
    proof {
        lemma_first_zero(bytes@);
    }
    let mut end: usize = 32;
    let mut i: usize = 0;
    while i < 32 && end == 32
        invariant
            i <= 32,
            bytes@.len() == 32,
            end == 32 || end < i,
            end == 32 ==> forall|t: int| 0 <= t < i ==> bytes@[t] != 0,
            end < 32 ==> bytes@[end as int] == 0 && (forall|t: int|
                0 <= t < end ==> bytes@[t] != 0),
        decreases 32 - i,
    {
        if bytes[i] == 0 {
            end = i;
        }
        i = i + 1;
    }
    proof {
        if end == 32 {
            assert(first_zero(bytes@) == 32) by {
                if first_zero(bytes@) < 32 {
                    assert(bytes@[first_zero(bytes@)] == 0);
                }
            }
        } else {
            assert(first_zero(bytes@) == end) by {
                if first_zero(bytes@) < end {
                    assert(bytes@[first_zero(bytes@)] == 0);
                }
                if end < first_zero(bytes@) {
                    assert(bytes@[end as int] != 0);
                }
            }
        }
    }
    let mut prefix: Vec<u8> = Vec::new();
    let mut t: usize = 0;
    while t < end
        invariant
            t <= end,
            end <= 32,
            bytes@.len() == 32,
            prefix@ == bytes@.take(t as int),
        decreases end - t,
    {
        proof {
            assert(bytes@.take(t as int + 1).drop_last() =~= bytes@.take(t as int));
        }
        prefix.push(bytes[t]);
        t = t + 1;
    }
    match core::str::from_utf8(prefix.as_slice()) {
        Ok(s) => Ok(s.to_owned()),
        Err(e) => Err(e),
    }
}

/// The zero-padded 32-byte wire form of a token symbol: the symbol's UTF-8
/// bytes, truncated at 32, followed by zeros.
pub fn string_to_bytes32(s: &str) -> (res: [u8; 32])
    ensures
        res@.len() == 32,
        forall|i: int|
            0 <= i < s.spec_bytes().len() && i < 32 ==> res@[i] == s.spec_bytes()[i],
        forall|i: int| s.spec_bytes().len() <= i < 32 ==> res@[i] == 0,
{
    let bytes = s.as_bytes();
    let mut res: [u8; 32] = [0; 32];
    let len: usize = if bytes.len() < 32 {
        bytes.len()
    } else {
        32
    };
    let mut i: usize = 0;
    while i < len
        invariant
            i <= len,
            len <= 32,
            len <= bytes@.len(),
            bytes@ == s.spec_bytes(),
            res@.len() == 32,
            forall|t: int| 0 <= t < i ==> res@[t] == bytes@[t],
            forall|t: int| i <= t < 32 ==> res@[t] == 0,
        decreases len - i,
    {
        res[i] = bytes[i];
        i = i + 1;
    }
    res
}

} // verus!
