//! Helpers on byte sequences: equality, byte-lexicographic ordering and
//! sorting of key/value pairs, and decimal conversions.
use vstd::prelude::*;
use vstd::multiset::Multiset;
use vstd::relations::{sorted_by, total_ordering};
use vstd::seq_lib::lemma_sorted_unique;
use vstd::string::StringSliceAdditionalSpecFns;

verus! {

/// The view of a list of byte-string pairs.
pub open spec fn kv_view(kv: Seq<(Vec<u8>, Vec<u8>)>) -> Seq<(Seq<u8>, Seq<u8>)> {
    Seq::new(kv.len(), |i: int| (kv[i].0@, kv[i].1@))
}

/// Byte-for-byte equality of two slices.
pub fn bytes_eq(a: &[u8], b: &[u8]) -> (r: bool)
    ensures
        r == (a@ == b@),
{
    if a.len() != b.len() {
        return false;
    }
    let mut i: usize = 0;
    while i < a.len()
        invariant
            i <= a@.len(),
            a@.len() == b@.len(),
            forall|j: int| 0 <= j < i ==> a@[j] == b@[j],
        decreases a@.len() - i,
    {
        if a[i] != b[i] {
            return false;
        }
        i = i + 1;
    }
    proof {
        assert(a@ =~= b@);
    }
    true
}

/// Equality of a byte slice with the UTF-8 bytes of a string slice.
pub fn bytes_eq_str(a: &[u8], s: &str) -> (r: bool)
    ensures
        r == (a@ == s.spec_bytes()),
{
    bytes_eq(a, s.as_bytes())
}

/// Byte-lexicographic `<=` on byte sequences.
pub open spec fn lex_le(a: Seq<u8>, b: Seq<u8>) -> bool
    decreases a.len(),
{
    if a.len() == 0 {
        true
    } else if b.len() == 0 {
        false
    } else if a[0] < b[0] {
        true
    } else if a[0] > b[0] {
        false
    } else {
        lex_le(a.skip(1), b.skip(1))
    }
}

pub proof fn lemma_lex_le_refl(a: Seq<u8>)
    ensures
        lex_le(a, a),
    decreases a.len(),
{
    if a.len() > 0 {
        lemma_lex_le_refl(a.skip(1));
    }
}

pub proof fn lemma_lex_le_total(a: Seq<u8>, b: Seq<u8>)
    ensures
        lex_le(a, b) || lex_le(b, a),
    decreases a.len(),
{
    if a.len() > 0 && b.len() > 0 && a[0] == b[0] {
        lemma_lex_le_total(a.skip(1), b.skip(1));
    }
}

pub proof fn lemma_lex_le_antisym(a: Seq<u8>, b: Seq<u8>)
    requires
        lex_le(a, b),
        lex_le(b, a),
    ensures
        a == b,
    decreases a.len(),
{
    if a.len() == 0 {
        assert(b.len() == 0);
        assert(a =~= b);
    } else {
        assert(b.len() > 0);
        assert(a[0] == b[0]);
        lemma_lex_le_antisym(a.skip(1), b.skip(1));
        assert(a.len() == b.len()) by {
            assert(a.skip(1).len() == b.skip(1).len());
        }
        assert forall|i: int| 0 <= i < a.len() implies a[i] == b[i] by {
            if i > 0 {
                assert(a.skip(1)[i - 1] == b.skip(1)[i - 1]);
            }
        }
        assert(a =~= b);
    }
}

pub proof fn lemma_lex_le_trans(a: Seq<u8>, b: Seq<u8>, c: Seq<u8>)
    requires
        lex_le(a, b),
        lex_le(b, c),
    ensures
        lex_le(a, c),
    decreases a.len(),
{
    if a.len() > 0 && b.len() > 0 && c.len() > 0 && a[0] == b[0] && b[0] == c[0] {
        lemma_lex_le_trans(a.skip(1), b.skip(1), c.skip(1));
    }
}

/// `pair_le` below is transitive.
pub proof fn lemma_pair_le_trans(x: (Seq<u8>, Seq<u8>), y: (Seq<u8>, Seq<u8>), z: (Seq<u8>, Seq<u8>))
    requires
        pair_le(x, y),
        pair_le(y, z),
    ensures
        pair_le(x, z),
{
    if x.0 == y.0 && y.0 == z.0 {
        lemma_lex_le_trans(x.1, y.1, z.1);
    } else if x.0 == y.0 {
        assert(lex_le(y.0, z.0));
    } else if y.0 == z.0 {
        assert(lex_le(x.0, y.0));
    } else {
        lemma_lex_le_trans(x.0, y.0, z.0);
        if x.0 == z.0 {
            lemma_lex_le_antisym(x.0, y.0);
        }
    }
}

/// Ordering of key/value pairs: by key, ties among repeated keys broken by
/// value. The tiebreak makes the order total, so the sorted sequence — and
/// with it the signature — is a function of the pair multiset alone; a sort
/// by key only would leave the order of equal keys, and hence the
/// signature, unspecified.
pub open spec fn pair_le(x: (Seq<u8>, Seq<u8>), y: (Seq<u8>, Seq<u8>)) -> bool {
    if x.0 != y.0 {
        lex_le(x.0, y.0)
    } else {
        lex_le(x.1, y.1)
    }
}

pub open spec fn pair_le_fn() -> spec_fn((Seq<u8>, Seq<u8>), (Seq<u8>, Seq<u8>)) -> bool {
    |x: (Seq<u8>, Seq<u8>), y: (Seq<u8>, Seq<u8>)| pair_le(x, y)
}

/// `pair_le` is a total ordering.
pub proof fn lemma_pair_le_total_ordering()
    ensures
        total_ordering(pair_le_fn()),
{
    let leq = pair_le_fn();
    assert forall|x: (Seq<u8>, Seq<u8>)| #[trigger] leq(x, x) by {
        lemma_lex_le_refl(x.1);
    }
    assert forall|x: (Seq<u8>, Seq<u8>), y: (Seq<u8>, Seq<u8>)|
        #[trigger] leq(x, y) && #[trigger] leq(y, x) implies x == y by {
        if x.0 != y.0 {
            lemma_lex_le_antisym(x.0, y.0);
        } else {
            lemma_lex_le_antisym(x.1, y.1);
        }
    }
    assert forall|x: (Seq<u8>, Seq<u8>), y: (Seq<u8>, Seq<u8>), z: (Seq<u8>, Seq<u8>)|
        #[trigger] leq(x, y) && #[trigger] leq(y, z) implies leq(x, z) by {
        lemma_pair_le_trans(x, y, z);
    }
    assert forall|x: (Seq<u8>, Seq<u8>), y: (Seq<u8>, Seq<u8>)|
        #[trigger] leq(x, y) || #[trigger] leq(y, x) by {
        if x.0 != y.0 {
            lemma_lex_le_total(x.0, y.0);
        } else {
            lemma_lex_le_total(x.1, y.1);
        }
    }
}

/// Byte-lexicographic comparison, executable.
pub fn lex_le_bytes(a: &Vec<u8>, b: &Vec<u8>) -> (r: bool)
    ensures
        r == lex_le(a@, b@),
{
    let mut i: usize = 0;
    proof {
        assert(a@.skip(0) =~= a@);
        assert(b@.skip(0) =~= b@);
    }
    loop
        invariant
            i <= a@.len(),
            i <= b@.len(),
            lex_le(a@, b@) == lex_le(a@.skip(i as int), b@.skip(i as int)),
        decreases a@.len() - i,
    {
        if i == a.len() {
            return true;
        }
        if i == b.len() {
            return false;
        }
        let x = a[i];
        let y = b[i];
        proof {
            assert(a@.skip(i as int)[0] == x);
            assert(b@.skip(i as int)[0] == y);
        }
        if x < y {
            return true;
        }
        if x > y {
            return false;
        }
        proof {
            assert(a@.skip(i as int).skip(1) =~= a@.skip(i as int + 1));
            assert(b@.skip(i as int).skip(1) =~= b@.skip(i as int + 1));
        }
        i = i + 1;
    }
}

/// Pair comparison, executable.
pub fn pair_le_exec(x: &(Vec<u8>, Vec<u8>), y: &(Vec<u8>, Vec<u8>)) -> (r: bool)
    ensures
        r == pair_le((x.0@, x.1@), (y.0@, y.1@)),
{
    if bytes_eq(x.0.as_slice(), y.0.as_slice()) {
        lex_le_bytes(&x.1, &y.1)
    } else {
        lex_le_bytes(&x.0, &y.0)
    }
}

/// Sortedness of key/value pairs under `pair_le`.
pub open spec fn pairs_sorted(s: Seq<(Seq<u8>, Seq<u8>)>) -> bool {
    forall|i: int, j: int| 0 <= i < j < s.len() ==> pair_le(#[trigger] s[i], #[trigger] s[j])
}

/// `pairs_sorted` is `sorted_by` under the closure form of `pair_le`.
pub proof fn lemma_pairs_sorted_is_sorted_by(s: Seq<(Seq<u8>, Seq<u8>)>)
    requires
        pairs_sorted(s),
    ensures
        sorted_by(s, pair_le_fn()),
{
    let leq = pair_le_fn();
    assert forall|i: int, j: int| 0 <= i < j < s.len() implies #[trigger] leq(s[i], s[j]) by {
        assert(pair_le(s[i], s[j]));
    }
}

/// Insertion sort of key/value pairs under `pair_le`: the result is the
/// unique sorted permutation of the input.
pub fn sort_pairs(v: Vec<(Vec<u8>, Vec<u8>)>) -> (r: Vec<(Vec<u8>, Vec<u8>)>)
    ensures
        sorted_by(kv_view(r@), pair_le_fn()),
        kv_view(r@).to_multiset() == kv_view(v@).to_multiset(),
        kv_view(r@) == kv_view(v@).sort_by(pair_le_fn()),
{
    broadcast use vstd::seq_lib::group_to_multiset_ensures;
    broadcast use vstd::multiset::group_multiset_axioms;

    let mut rest = v;
    let mut out: Vec<(Vec<u8>, Vec<u8>)> = Vec::new();
    proof {
        assert(kv_view(out@) =~= Seq::<(Seq<u8>, Seq<u8>)>::empty());
        assert(kv_view(out@).to_multiset().add(kv_view(rest@).to_multiset()) =~= kv_view(
            v@,
        ).to_multiset());
    }
    loop
        invariant
            pairs_sorted(kv_view(out@)),
            kv_view(out@).to_multiset().add(kv_view(rest@).to_multiset()) == kv_view(
                v@,
            ).to_multiset(),
        decreases rest@.len(),
    {
        let ghost rest0 = rest@;
        let x = match rest.pop() {
            Some(x) => x,
            None => {
                proof {
                    lemma_pair_le_total_ordering();
                    assert(kv_view(rest@).len() == 0);
                    vstd::seq_lib::to_multiset_len(kv_view(rest@));
                    vstd::multiset::lemma_multiset_empty_len(kv_view(rest@).to_multiset());
                    assert(kv_view(rest@).to_multiset() =~= Multiset::<(Seq<u8>, Seq<u8>)>::empty());
                    assert(kv_view(out@).to_multiset() =~= kv_view(v@).to_multiset());
                    lemma_pairs_sorted_is_sorted_by(kv_view(out@));
                    kv_view(v@).lemma_sort_by_ensures(pair_le_fn());
                    lemma_sorted_unique(kv_view(out@), kv_view(v@).sort_by(pair_le_fn()), pair_le_fn());
                }
                return out;
            },
        };
        proof {
            assert(rest0 =~= rest@.push(x));
            assert(kv_view(rest0) =~= kv_view(rest@).push((x.0@, x.1@)));
        }
        // find the insertion point: the first index whose element is not <= x
        let mut j: usize = 0;
        loop
            invariant
                j <= out@.len(),
                forall|k: int| 0 <= k < j ==> pair_le(kv_view(out@)[k], (x.0@, x.1@)),
            ensures
                j <= out@.len(),
                forall|k: int| 0 <= k < j ==> pair_le(kv_view(out@)[k], (x.0@, x.1@)),
                j < out@.len() ==> !pair_le(kv_view(out@)[j as int], (x.0@, x.1@)),
            decreases out@.len() - j,
        {
            if j == out.len() {
                break;
            }
            if !pair_le_exec(&out[j], &x) {
                proof {
                    assert(kv_view(out@)[j as int] == (out@[j as int].0@, out@[j as int].1@));
                }
                break;
            }
            proof {
                assert(kv_view(out@)[j as int] == (out@[j as int].0@, out@[j as int].1@));
            }
            j = j + 1;
        }
        proof {
            let xv = (x.0@, x.1@);
            let ov = kv_view(out@);
            if (j as int) < ov.len() {
                assert(!pair_le(ov[j as int], xv));
                if ov[j as int].0 != xv.0 {
                    lemma_lex_le_total(ov[j as int].0, xv.0);
                } else {
                    lemma_lex_le_total(ov[j as int].1, xv.1);
                }
                assert(pair_le(xv, ov[j as int]));
            }
        }
        let ghost pre = kv_view(out@);
        let ghost xv = (x.0@, x.1@);
        let ghost jj = j as int;
        out.insert(j, x);
        proof {
            assert(kv_view(out@) =~= pre.insert(jj, xv));
            let post = kv_view(out@);
            // sortedness of the result
            assert forall|p: int, q: int| 0 <= p < q < post.len() implies pair_le(
                #[trigger] post[p],
                #[trigger] post[q],
            ) by {
                let pp = if p < jj { pre[p] } else if p == jj { xv } else { pre[p - 1] };
                assert(post[p] == pp);
                let qq = if q < jj { pre[q] } else if q == jj { xv } else { pre[q - 1] };
                assert(post[q] == qq);
                if p == jj && q > jj + 1 {
                    assert(pair_le(xv, pre[jj]));
                    assert(pair_le(pre[jj], pre[q - 1]));
                    lemma_pair_le_trans(xv, pre[jj], pre[q - 1]);
                }
            }
            assert(pairs_sorted(post));
            // multiset bookkeeping
            vstd::seq_lib::to_multiset_insert(pre, jj, xv);
            assert(post.to_multiset() == pre.to_multiset().insert(xv));
            vstd::seq_lib::to_multiset_build(kv_view(rest@), xv);
            assert(kv_view(rest0) == kv_view(rest@).push(xv));
            assert(kv_view(rest0).to_multiset() == kv_view(rest@).to_multiset().insert(xv));
            assert(pre.to_multiset().add(kv_view(rest0).to_multiset()) == kv_view(v@).to_multiset());
            assert(post.to_multiset().add(kv_view(rest@).to_multiset()) =~= kv_view(
                v@,
            ).to_multiset());
        }
    }
}

/// `to_multiset` commutes with `filter`: filtering equal multisets in any
/// order yields equal multisets.
pub proof fn lemma_filter_to_multiset_commute<A>(s: Seq<A>, p: spec_fn(A) -> bool)
    ensures
        s.filter(p).to_multiset() == s.to_multiset().filter(p),
    decreases s.len(),
{
    broadcast use vstd::seq_lib::group_to_multiset_ensures;
    broadcast use vstd::multiset::group_multiset_axioms;

    reveal(Seq::filter);
    if s.len() == 0 {
        assert(s.to_multiset() =~= Multiset::<A>::empty());
        assert(s.filter(p).to_multiset() =~= s.to_multiset().filter(p));
    } else {
        let t = s.drop_last();
        let x = s.last();
        lemma_filter_to_multiset_commute(t, p);
        assert(t.push(x) =~= s);
        assert(t.push(x).to_multiset() =~= t.to_multiset().insert(x));
        if p(x) {
            assert(s.filter(p) == t.filter(p).push(x));
            assert(t.filter(p).push(x).to_multiset() =~= t.filter(p).to_multiset().insert(x));
            assert(s.filter(p).to_multiset() =~= s.to_multiset().filter(p));
        } else {
            assert(s.filter(p) == t.filter(p));
            assert(s.filter(p).to_multiset() =~= s.to_multiset().filter(p));
        }
    }
}

/// An ASCII decimal digit.
pub open spec fn is_digit(b: u8) -> bool {
    48 <= b && b <= 57
}

/// The number denoted by a sequence of decimal digits, most significant
/// first.
pub open spec fn digits_val(s: Seq<u8>) -> int
    decreases s.len(),
{
    if s.len() == 0 {
        0
    } else {
        digits_val(s.drop_last()) * 10 + (s.last() - 48)
    }
}

/// Whether every byte is a decimal digit.
pub open spec fn all_digits(s: Seq<u8>) -> bool {
    forall|i: int| 0 <= i < s.len() ==> is_digit(#[trigger] s[i])
}

/// The value of a digit sequence never shrinks as digits are appended.
pub proof fn lemma_digits_val_mono(s: Seq<u8>, i: int)
    requires
        all_digits(s),
        0 <= i <= s.len(),
    ensures
        digits_val(s) >= digits_val(s.take(i)),
        digits_val(s) >= 0,
    decreases s.len(),
{
    if s.len() > 0 {
        assert(all_digits(s.drop_last()));
        lemma_digits_val_mono(s.drop_last(), if i < s.len() { i } else { i - 1 });
        if i < s.len() {
            assert(s.take(i) =~= s.drop_last().take(i));
        } else {
            assert(s.take(i) =~= s);
        }
    } else {
        assert(s.take(i) =~= s);
    }
}

/// The digits of a numeral after an optional leading plus sign. 43 is `+`.
pub open spec fn spec_digits_part(s: Seq<u8>) -> Seq<u8> {
    if s.len() > 0 && s[0] == 43 {
        s.skip(1)
    } else {
        s
    }
}

/// Parsing of decimal numerals, with the unsigned-integer syntax of
/// `str::parse`: an optional leading plus sign, then one or more digits;
/// defined exactly when the digits are nonempty and the value fits the
/// type.
pub open spec fn spec_parse_u64(s: Seq<u8>) -> Option<u64> {
    let d = spec_digits_part(s);
    if d.len() > 0 && all_digits(d) && digits_val(d) <= u64::MAX {
        Some(digits_val(d) as u64)
    } else {
        None
    }
}

pub open spec fn spec_parse_u32(s: Seq<u8>) -> Option<u32> {
    let d = spec_digits_part(s);
    if d.len() > 0 && all_digits(d) && digits_val(d) <= u32::MAX {
        Some(digits_val(d) as u32)
    } else {
        None
    }
}

pub open spec fn spec_parse_u8(s: Seq<u8>) -> Option<u8> {
    let d = spec_digits_part(s);
    if d.len() > 0 && all_digits(d) && digits_val(d) <= u8::MAX {
        Some(digits_val(d) as u8)
    } else {
        None
    }
}

/// Parse a decimal numeral into a `u64`.
pub fn parse_u64(s: &[u8]) -> (r: Option<u64>)
    ensures
        r == spec_parse_u64(s@),
{
    let start: usize = if s.len() > 0 && s[0] == 43 {
        1
    } else {
        0
    };
    let ghost d = spec_digits_part(s@);
    proof {
        assert(d =~= s@.skip(start as int));
    }
    if s.len() == start {
        return None;
    }
    let mut val: u64 = 0;
    let mut i: usize = start;
    proof {
        assert(d.take(0) =~= Seq::<u8>::empty());
    }
    while i < s.len()
        invariant
            start <= i <= s@.len(),
            start < s@.len(),
            d == spec_digits_part(s@),
            d == s@.skip(start as int),
            all_digits(d.take(i as int - start as int)),
            val == digits_val(d.take(i as int - start as int)),
        decreases s@.len() - i,
    {
        let b = s[i];
        proof {
            assert(d[i as int - start as int] == s@[i as int]);
        }
        if b < 48 || b > 57 {
            proof {
                assert(!is_digit(d[i as int - start as int]));
            }
            return None;
        }
        let dig = (b - 48) as u64;
        proof {
            let j = i as int - start as int;
            assert(d.take(j + 1).drop_last() =~= d.take(j));
            assert(d.take(j + 1).last() == d[j]);
            assert(all_digits(d.take(j + 1)));
            assert(digits_val(d.take(j + 1)) == digits_val(d.take(j)) * 10 + (b - 48));
        }
        let next = match val.checked_mul(10) {
            Some(v) => v.checked_add(dig),
            None => None,
        };
        match next {
            Some(v) => {
                val = v;
                i = i + 1;
            },
            None => {
                proof {
                    assert(digits_val(d.take(i as int - start as int + 1)) > u64::MAX);
                    if all_digits(d) {
                        lemma_digits_val_mono(d, i as int - start as int + 1);
                        assert(digits_val(d) > u64::MAX);
                    }
                }
                return None;
            },
        }
    }
    proof {
        assert(d.take(d.len() as int) =~= d);
    }
    Some(val)
}

/// Parse a decimal numeral into a `u32`.
pub fn parse_u32(s: &[u8]) -> (r: Option<u32>)
    ensures
        r == spec_parse_u32(s@),
{
    proof {
        let d = spec_digits_part(s@);
        if d.len() > 0 && all_digits(d) {
            lemma_digits_val_mono(d, 0);
        }
    }
    match parse_u64(s) {
        Some(v) => {
            if v <= u32::MAX as u64 {
                Some(v as u32)
            } else {
                None
            }
        },
        None => None,
    }
}

/// Parse a decimal numeral into a `u8`.
pub fn parse_u8(s: &[u8]) -> (r: Option<u8>)
    ensures
        r == spec_parse_u8(s@),
{
    proof {
        let d = spec_digits_part(s@);
        if d.len() > 0 && all_digits(d) {
            lemma_digits_val_mono(d, 0);
        }
    }
    match parse_u64(s) {
        Some(v) => {
            if v <= u8::MAX as u64 {
                Some(v as u8)
            } else {
                None
            }
        },
        None => None,
    }
}

/// The decimal rendering of a nonnegative number is nonempty and all
/// digits.
pub proof fn lemma_digits_of_dec(n: int)
    requires
        n >= 0,
    ensures
        all_digits(spec_dec(n)),
        spec_dec(n).len() > 0,
    decreases n,
{
    if n >= 10 {
        lemma_digits_of_dec(n / 10);
        let d = spec_dec(n / 10);
        let w = spec_dec(n);
        assert forall|i: int| 0 <= i < w.len() implies is_digit(#[trigger] w[i]) by {
            if i < d.len() {
                assert(d[i] == w[i]);
                assert(is_digit(d[i]));
            }
        }
    }
}

/// Format a number as decimal digits, most significant first.
pub fn u32_to_dec(n: u32) -> (r: Vec<u8>)
    ensures
        r@ == spec_dec(n as int),
{
    if n == 0 {
        let mut r: Vec<u8> = Vec::new();
        r.push(48u8);
        proof {
            assert(r@ =~= spec_dec(0));
        }
        return r;
    }
    let mut digits: Vec<u8> = Vec::new();
    let mut m: u32 = n;
    proof {
        assert(digits@.reverse() =~= Seq::<u8>::empty());
        assert(spec_dec(n as int) + digits@.reverse() =~= spec_dec(n as int));
    }
    while m > 0
        invariant
            spec_dec(n as int) == if m > 0 {
                spec_dec(m as int) + digits@.reverse()
            } else {
                digits@.reverse()
            },
        decreases m,
    {
        let ghost pre = digits@;
        let d = m % 10;
        let m2 = m / 10;
        digits.push((48 + d) as u8);
        proof {
            assert(digits@.reverse() =~= seq![(48 + d as int) as u8] + pre.reverse());
            if m2 > 0 {
                assert(spec_dec(m as int) == spec_dec(m2 as int).push((48 + (m as int) % 10) as u8));
                assert(spec_dec(m2 as int).push((48 + d as int) as u8) + pre.reverse()
                    =~= spec_dec(m2 as int) + (seq![(48 + d as int) as u8] + pre.reverse()));
            } else {
                assert(0 < m < 10);
                assert(spec_dec(m as int) =~= seq![(48 + d as int) as u8]);
                assert(spec_dec(m as int) + pre.reverse() =~= seq![(48 + d as int) as u8]
                    + pre.reverse());
            }
        }
        m = m2;
    }
    let mut r: Vec<u8> = Vec::new();
    let mut i: usize = digits.len();
    while i > 0
        invariant
            i <= digits@.len(),
            r@.len() == digits@.len() - i,
            forall|j: int| 0 <= j < r@.len() ==> r@[j] == digits@[digits@.len() - 1 - j],
        decreases i,
    {
        r.push(digits[i - 1]);
        i = i - 1;
    }
    proof {
        assert(r@ =~= digits@.reverse());
    }
    r
}

/// The decimal digits of a nonnegative number, most significant first.
pub open spec fn spec_dec(n: int) -> Seq<u8>
    recommends
        n >= 0,
    decreases n,
{
    if 0 <= n < 10 {
        seq![(48 + n) as u8]
    } else if n >= 10 {
        spec_dec(n / 10).push((48 + n % 10) as u8)
    } else {
        Seq::empty()
    }
}

} // verus!
