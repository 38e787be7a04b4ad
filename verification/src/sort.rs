//! A stable least-significant-digit radix sort of Morton keys: three
//! counting-sort passes over 10-bit digits.
//!
//! Each pass builds a histogram of digit values, turns it into prefix-sum
//! offsets, and scatters the elements into a scratch buffer. Stability makes
//! the passes compose: after pass `p` the list is strictly ordered by the
//! low `10 * (p + 1)` bits of the code, with ties broken by the object
//! ordinal, which is unique.

use vstd::prelude::*;

verus! {

broadcast use {vstd::seq_lib::group_filter_ensures, vstd::seq_lib::group_to_multiset_ensures};

/// A transient construction record: an object's position in the caller's
/// array and its Morton code.
#[derive(Debug, Clone, Copy, PartialEq, Eq, Structural)]
pub struct MortonKey {
    /// The position of the object in the caller's box array.
    pub object_ordinal: usize,
    /// The 30-bit Morton code of the object's center.
    pub code: u32,
}

/// The radix of one sorting pass: digits are ten bits wide.
pub const RADIX: usize = 1024;

/// The `pass`-th 10-bit digit of a key's code.
pub open spec fn digit_of(k: MortonKey, pass: int) -> int {
    if pass <= 0 {
        (k.code & 1023) as int
    } else if pass == 1 {
        ((k.code >> 10) & 1023) as int
    } else {
        ((k.code >> 20) & 1023) as int
    }
}

/// The low `10 * pass` bits of a key's code.
pub open spec fn low_bits(k: MortonKey, pass: int) -> int {
    if pass <= 0 {
        0
    } else if pass == 1 {
        (k.code & 0x3FF) as int
    } else if pass == 2 {
        (k.code & 0xFFFFF) as int
    } else {
        (k.code & 0x3FFFFFFF) as int
    }
}

/// The weight of one unit of the `pass`-th digit.
pub open spec fn digit_weight(pass: int) -> int {
    if pass <= 0 {
        1
    } else if pass == 1 {
        0x400
    } else {
        0x100000
    }
}

/// Strict order on keys by the low `10 * pass` code bits, ties broken by
/// the object ordinal.
pub open spec fn key_lt_at(a: MortonKey, b: MortonKey, pass: int) -> bool {
    low_bits(a, pass) < low_bits(b, pass) || (low_bits(a, pass) == low_bits(b, pass)
        && a.object_ordinal < b.object_ordinal)
}

/// Strictly sorted by `key_lt_at` at the given pass.
pub open spec fn sorted_at(s: Seq<MortonKey>, pass: int) -> bool {
    forall|i: int, j: int| 0 <= i < j < s.len() ==> key_lt_at(#[trigger] s[i], #[trigger] s[j], pass)
}

/// Strict order on keys by the full code, ties broken by the ordinal.
pub open spec fn key_lt(a: MortonKey, b: MortonKey) -> bool {
    a.code < b.code || (a.code == b.code && a.object_ordinal < b.object_ordinal)
}

/// Every digit lies below the radix.
pub proof fn lemma_digit_range(k: MortonKey, pass: int)
    ensures
        0 <= digit_of(k, pass) < 1024,
{
    let c = k.code;
    assert((c & 1023) < 1024 && ((c >> 10) & 1023) < 1024 && ((c >> 20) & 1023) < 1024)
        by (bit_vector);
}

/// The low bits of the next pass decompose into this pass's digit, weighted,
/// plus the current low bits; and the current low bits stay below the weight.
pub proof fn lemma_low_bits_compose(k: MortonKey, pass: int)
    requires
        0 <= pass < 3,
    ensures
        low_bits(k, pass + 1) == digit_of(k, pass) * digit_weight(pass) + low_bits(k, pass),
        0 <= low_bits(k, pass) < digit_weight(pass),
{
    let c = k.code;
    if pass == 0 {
        assert((c & 0x3FF) == (c & 1023)) by (bit_vector);
    } else if pass == 1 {
        assert((c & 0xFFFFF) == ((c >> 10) & 1023) * 0x400 + (c & 0x3FF) && (c & 0x3FF) < 0x400)
            by (bit_vector);
    } else {
        assert((c & 0x3FFFFFFF) == ((c >> 20) & 1023) * 0x100000 + (c & 0xFFFFF) && (c & 0xFFFFF)
            < 0x100000) by (bit_vector);
    }
}

/// A 30-bit code is exactly its low 30 bits.
pub proof fn lemma_low_bits_full(k: MortonKey)
    requires
        k.code < 0x40000000,
    ensures
        low_bits(k, 3) == k.code,
{
    let c = k.code;
    assert(c < 0x40000000 ==> (c & 0x3FFFFFFF) == c) by (bit_vector);
}

/// The predicate picking the keys whose `pass`-th digit is `d`.
pub open spec fn digit_is(pass: int, d: int) -> spec_fn(MortonKey) -> bool {
    |k: MortonKey| digit_of(k, pass) == d
}

/// How many keys of `s` have digit `d` at `pass`.
pub open spec fn cnt(s: Seq<MortonKey>, pass: int, d: int) -> int {
    s.filter(digit_is(pass, d)).len() as int
}

/// How many keys of `s` have a digit below `d` at `pass`.
pub open spec fn cnt_below(s: Seq<MortonKey>, pass: int, d: int) -> int
    decreases d,
{
    if d <= 0 {
        0
    } else {
        cnt_below(s, pass, d - 1) + cnt(s, pass, d - 1)
    }
}

/// Appending one key raises exactly the count of its own digit.
pub proof fn lemma_cnt_push(s: Seq<MortonKey>, x: MortonKey, pass: int, d: int)
    ensures
        cnt(s.push(x), pass, d) == cnt(s, pass, d) + if digit_of(x, pass) == d {
            1int
        } else {
            0int
        },
{
    reveal(Seq::filter);
    assert(s.push(x).drop_last() =~= s);
}

/// Appending one key raises `cnt_below(d)` exactly when its digit is below
/// `d`.
pub proof fn lemma_cnt_below_push(s: Seq<MortonKey>, x: MortonKey, pass: int, d: int)
    ensures
        cnt_below(s.push(x), pass, d) == cnt_below(s, pass, d) + if digit_of(x, pass) < d {
            1int
        } else {
            0int
        },
    decreases d,
{
    if d > 0 {
        lemma_cnt_below_push(s, x, pass, d - 1);
        lemma_cnt_push(s, x, pass, d - 1);
    }
}

/// Counts never decrease as `d` grows.
pub proof fn lemma_cnt_below_mono(s: Seq<MortonKey>, pass: int, a: int, b: int)
    requires
        a <= b,
    ensures
        cnt_below(s, pass, a) <= cnt_below(s, pass, b),
    decreases b - a,
{
    if a < b {
        lemma_cnt_below_mono(s, pass, a, b - 1);
    }
}

/// Every key has exactly one digit, so the counts below the radix add up to
/// the whole sequence.
pub proof fn lemma_cnt_below_total(s: Seq<MortonKey>, pass: int)
    ensures
        cnt_below(s, pass, 1024) == s.len(),
    decreases s.len(),
{
    if s.len() == 0 {
        assert(s =~= Seq::<MortonKey>::empty());
        lemma_cnt_below_empty(pass, 1024);
    } else {
        let u = s.drop_last();
        let x = s.last();
        lemma_cnt_below_total(u, pass);
        lemma_cnt_below_push(u, x, pass, 1024);
        lemma_digit_range(x, pass);
        assert(u.push(x) =~= s);
    }
}

/// The empty sequence has no keys of any digit.
pub proof fn lemma_cnt_below_empty(pass: int, d: int)
    ensures
        cnt_below(Seq::<MortonKey>::empty(), pass, d) == 0,
    decreases d,
{
    if d > 0 {
        lemma_cnt_below_empty(pass, d - 1);
        reveal(Seq::filter);
    }
}

/// A prefix never holds more keys of a digit than the whole sequence.
pub proof fn lemma_cnt_take_le(s: Seq<MortonKey>, pass: int, d: int, j: int)
    requires
        0 <= j <= s.len(),
    ensures
        cnt(s.take(j), pass, d) <= cnt(s, pass, d),
    decreases s.len() - j,
{
    if j < s.len() {
        lemma_cnt_take_le(s, pass, d, j + 1);
        lemma_cnt_push(s.take(j), s[j], pass, d);
        assert(s.take(j).push(s[j]) =~= s.take(j + 1));
    } else {
        assert(s.take(j) =~= s);
    }
}

/// Filtering a strictly sorted sequence keeps it strictly sorted.
pub proof fn lemma_filter_preserves_sorted(
    s: Seq<MortonKey>,
    pred: spec_fn(MortonKey) -> bool,
    pass: int,
)
    requires
        sorted_at(s, pass),
    ensures
        sorted_at(s.filter(pred), pass),
    decreases s.len(),
{
    reveal(Seq::filter);
    if s.len() > 0 {
        let u = s.drop_last();
        let x = s.last();
        assert(sorted_at(u, pass));
        lemma_filter_preserves_sorted(u, pred, pass);
        let fu = u.filter(pred);
        if pred(x) {
            assert forall|i: int, j: int|
                0 <= i < j < s.filter(pred).len() implies key_lt_at(
                #[trigger] s.filter(pred)[i],
                #[trigger] s.filter(pred)[j],
                pass,
            ) by {
                if j < fu.len() {
                    assert(s.filter(pred)[i] == fu[i] && s.filter(pred)[j] == fu[j]);
                } else {
                    assert(s.filter(pred)[j] == x);
                    assert(s.filter(pred)[i] == fu[i]);
                    assert(fu.contains(fu[i]));
                    u.lemma_filter_contains_rev(pred, fu[i]);
                    let a = choose|a: int| 0 <= a < u.len() && u[a] == fu[i];
                    assert(s[a] == fu[i] && s[s.len() - 1] == x);
                    assert(key_lt_at(s[a], s[s.len() - 1], pass));
                }
            }
        }
    }
}

/// Every element of a filtered sequence satisfies the predicate.
pub proof fn lemma_filter_elems(s: Seq<MortonKey>, pred: spec_fn(MortonKey) -> bool)
    ensures
        forall|i: int| 0 <= i < s.filter(pred).len() ==> pred(#[trigger] s.filter(pred)[i]),
{
    assert forall|i: int| 0 <= i < s.filter(pred).len() implies pred(
        #[trigger] s.filter(pred)[i],
    ) by {
        s.lemma_filter_pred(pred, i);
    }
}

/// The keys of `s`, grouped by digit: all keys of digit `0`, then of digit
/// `1`, and so on below `d`, each group in its original order.
pub open spec fn parts(s: Seq<MortonKey>, pass: int, d: int) -> Seq<MortonKey>
    decreases d,
{
    if d <= 0 {
        Seq::empty()
    } else {
        parts(s, pass, d - 1) + s.filter(digit_is(pass, d - 1))
    }
}

/// Grouping the empty sequence gives the empty sequence.
proof fn lemma_parts_empty(pass: int, d: int)
    ensures
        parts(Seq::<MortonKey>::empty(), pass, d) =~= Seq::<MortonKey>::empty(),
    decreases d,
{
    if d > 0 {
        lemma_parts_empty(pass, d - 1);
        reveal(Seq::filter);
    }
}

/// Appending a key adds it to exactly one group, so the grouped multiset
/// grows by that key alone.
proof fn lemma_parts_push(s: Seq<MortonKey>, x: MortonKey, pass: int, d: int)
    ensures
        digit_of(x, pass) < d ==> parts(s.push(x), pass, d).to_multiset() == parts(
            s,
            pass,
            d,
        ).to_multiset().insert(x),
        digit_of(x, pass) >= d ==> parts(s.push(x), pass, d).to_multiset() == parts(
            s,
            pass,
            d,
        ).to_multiset(),
    decreases d,
{
    if d > 0 {
        lemma_parts_push(s, x, pass, d - 1);
        assert(s.push(x).drop_last() =~= s);
        reveal(Seq::filter);
        vstd::seq_lib::lemma_multiset_commutative(
            parts(s.push(x), pass, d - 1),
            s.push(x).filter(digit_is(pass, d - 1)),
        );
        vstd::seq_lib::lemma_multiset_commutative(
            parts(s, pass, d - 1),
            s.filter(digit_is(pass, d - 1)),
        );
        if digit_of(x, pass) == d - 1 {
            assert(s.push(x).filter(digit_is(pass, d - 1)) =~= s.filter(
                digit_is(pass, d - 1),
            ).push(x));
            assert(s.filter(digit_is(pass, d - 1)).push(x).to_multiset() =~= s.filter(
                digit_is(pass, d - 1),
            ).to_multiset().insert(x));
            assert(parts(s.push(x), pass, d).to_multiset() =~= parts(
                s,
                pass,
                d,
            ).to_multiset().insert(x));
        } else {
            assert(s.push(x).filter(digit_is(pass, d - 1)) =~= s.filter(digit_is(pass, d - 1)));
            if digit_of(x, pass) < d - 1 {
                assert(parts(s.push(x), pass, d).to_multiset() =~= parts(
                    s,
                    pass,
                    d,
                ).to_multiset().insert(x));
            } else {
                assert(parts(s.push(x), pass, d).to_multiset() =~= parts(s, pass, d).to_multiset());
            }
        }
    }
}

/// Grouping by digit only rearranges the keys.
proof fn lemma_parts_multiset(s: Seq<MortonKey>, pass: int)
    ensures
        parts(s, pass, 1024).to_multiset() == s.to_multiset(),
    decreases s.len(),
{
    if s.len() == 0 {
        assert(s =~= Seq::<MortonKey>::empty());
        lemma_parts_empty(pass, 1024);
    } else {
        let u = s.drop_last();
        let x = s.last();
        lemma_parts_multiset(u, pass);
        lemma_parts_push(u, x, pass, 1024);
        lemma_digit_range(x, pass);
        assert(u.push(x) =~= s);
        assert(u.push(x).to_multiset() =~= u.to_multiset().insert(x));
    }
}

/// The group sizes add up: grouping below `d` yields `cnt_below(d)` keys.
proof fn lemma_parts_len(s: Seq<MortonKey>, pass: int, d: int)
    ensures
        parts(s, pass, d).len() == cnt_below(s, pass, d),
    decreases d,
{
    if d > 0 {
        lemma_parts_len(s, pass, d - 1);
    }
}

/// Which digit group a position of the grouped output belongs to.
proof fn find_region(s: Seq<MortonKey>, pass: int, q: int, d: int) -> (r: int)
    requires
        0 <= q < cnt_below(s, pass, d),
        0 < d <= 1024,
    ensures
        0 <= r < d,
        cnt_below(s, pass, r) <= q < cnt_below(s, pass, r + 1),
    decreases d,
{
    if q >= cnt_below(s, pass, d - 1) {
        d - 1
    } else {
        find_region(s, pass, q, d - 1)
    }
}

/// The digit of one key, computed the way the sorter reads it.
fn digit_at(k: MortonKey, pass: usize) -> (d: usize)
    requires
        pass < 3,
    ensures
        d as int == digit_of(k, pass as int),
        d < 1024,
{
    proof {
        lemma_digit_range(k, pass as int);
    }
    if pass == 0 {
        (k.code & 1023) as usize
    } else if pass == 1 {
        ((k.code >> 10) & 1023) as usize
    } else {
        ((k.code >> 20) & 1023) as usize
    }
}

/// One stable counting-sort pass over the `pass`-th 10-bit digit: histogram,
/// prefix-sum offsets, then a scatter into a scratch buffer.
fn counting_sort_pass(objects: Vec<MortonKey>, pass: usize) -> (r: Vec<MortonKey>)
    requires
        pass < 3,
        sorted_at(objects@, pass as int),
    ensures
        r@.len() == objects@.len(),
        r@.to_multiset() == objects@.to_multiset(),
        sorted_at(r@, pass as int + 1),
{
    let n = objects.len();
    let ghost s = objects@;
    let ghost p = pass as int;

    // Histogram of digit values.
    let mut counts: Vec<usize> = Vec::new();
    let mut d: usize = 0;
    while d < RADIX
        invariant
            d <= RADIX,
            counts@.len() == d,
            forall|e: int| 0 <= e < d ==> counts@[e] == 0,
        decreases RADIX - d,
    {
        counts.push(0);
        d = d + 1;
    }
    proof {
        assert(s.take(0) =~= Seq::<MortonKey>::empty());
        assert forall|e: int| 0 <= e < 1024 implies cnt(s.take(0), p, e) == 0 by {
            reveal(Seq::filter);
        }
    }
    let mut i: usize = 0;
    while i < n
        invariant
            i <= n,
            n == s.len(),
            objects@ == s,
            pass < 3,
            p == pass as int,
            counts@.len() == 1024,
            forall|e: int| 0 <= e < 1024 ==> counts@[e] as int == cnt(s.take(i as int), p, e),
        decreases n - i,
    {
        let dg = digit_at(objects[i], pass);
        proof {
            assert(cnt(s.take(i as int), p, dg as int) <= s.take(i as int).len());
        }
        let c = counts[dg];
        counts.set(dg, c + 1);
        proof {
            assert(s.take(i as int).push(s[i as int]) =~= s.take(i + 1));
            assert forall|e: int| 0 <= e < 1024 implies counts@[e] as int == cnt(
                s.take(i + 1),
                p,
                e,
            ) by {
                lemma_cnt_push(s.take(i as int), s[i as int], p, e);
            }
        }
        i = i + 1;
    }
    proof {
        assert(s.take(n as int) =~= s);
        lemma_cnt_below_total(s, p);
    }

    // Prefix sums: offsets[d] counts the keys with a smaller digit.
    let mut offsets: Vec<usize> = Vec::new();
    let mut sum: usize = 0;
    let mut e: usize = 0;
    while e < RADIX
        invariant
            e <= RADIX,
            n == s.len(),
            offsets@.len() == e,
            counts@.len() == 1024,
            forall|g: int| 0 <= g < 1024 ==> counts@[g] as int == cnt(s, p, g),
            sum as int == cnt_below(s, p, e as int),
            cnt_below(s, p, 1024) == n,
            forall|g: int| 0 <= g < e ==> offsets@[g] as int == cnt_below(s, p, g),
        decreases RADIX - e,
    {
        offsets.push(sum);
        proof {
            lemma_cnt_below_mono(s, p, e as int + 1, 1024);
        }
        sum = sum + counts[e];
        e = e + 1;
    }

    // Scatter, stably: each key goes to the next free slot of its digit's
    // region.
    let mut tmp: Vec<MortonKey> = Vec::new();
    let mut j: usize = 0;
    while j < n
        invariant
            j <= n,
            n == objects@.len(),
            tmp@.len() == j,
        decreases n - j,
    {
        tmp.push(objects[j]);
        j = j + 1;
    }
    let ghost off0 = offsets@;
    let mut cursors = offsets;
    proof {
        assert(s.take(0) =~= Seq::<MortonKey>::empty());
        assert forall|g: int| 0 <= g < 1024 implies cnt(s.take(0), p, g) == 0 && s.take(0).filter(
            digit_is(p, g),
        ) =~= Seq::<MortonKey>::empty() by {
            reveal(Seq::filter);
        }
        assert forall|g: int| 0 <= g < 1024 implies tmp@.subrange(
            off0[g] as int,
            off0[g] as int,
        ) =~= s.take(0).filter(digit_is(p, g)) by {
            lemma_cnt_below_mono(s, p, g, 1024);
        }
    }
    let mut i2: usize = 0;
    while i2 < n
        invariant
            i2 <= n,
            n == s.len(),
            objects@ == s,
            pass < 3,
            p == pass as int,
            tmp@.len() == n,
            cursors@.len() == 1024,
            off0.len() == 1024,
            cnt_below(s, p, 1024) == n,
            forall|g: int| 0 <= g < 1024 ==> off0[g] as int == cnt_below(s, p, g),
            forall|g: int| 0 <= g < 1024 ==> cursors@[g] as int == off0[g] as int + cnt(
                s.take(i2 as int),
                p,
                g,
            ),
            forall|g: int|
                0 <= g < 1024 ==> tmp@.subrange(off0[g] as int, cursors@[g] as int) == s.take(
                    i2 as int,
                ).filter(digit_is(p, g)),
        decreases n - i2,
    {
        let k = objects[i2];
        let dg = digit_at(k, pass);
        let ghost dgi = dg as int;
        let ghost prefix = s.take(i2 as int);
        proof {
            lemma_cnt_take_le(s, p, dgi, i2 + 1);
            lemma_cnt_push(prefix, s[i2 as int], p, dgi);
            assert(prefix.push(s[i2 as int]) =~= s.take(i2 + 1));
            // The write position stays inside this digit's region.
            assert(cnt(s.take(i2 + 1), p, dgi) <= cnt(s, p, dgi));
            assert((cursors@[dgi] as int) < cnt_below(s, p, dgi) + cnt(s, p, dgi));
            lemma_cnt_below_mono(s, p, dgi + 1, 1024);
            assert((cursors@[dgi] as int) < n);
        }
        let pos = cursors[dg];
        tmp.set(pos, k);
        let cur = cursors[dg];
        cursors.set(dg, cur + 1);
        proof {
            assert forall|g: int| 0 <= g < 1024 implies cursors@[g] as int == off0[g] as int + cnt(
                s.take(i2 + 1),
                p,
                g,
            ) by {
                lemma_cnt_push(prefix, s[i2 as int], p, g);
            }
            assert forall|g: int| 0 <= g < 1024 implies tmp@.subrange(
                off0[g] as int,
                cursors@[g] as int,
            ) == s.take(i2 + 1).filter(digit_is(p, g)) by {
                assert(s.take(i2 as int).filter(digit_is(p, g)) == prefix.filter(digit_is(p, g)));
                lemma_cnt_push(prefix, s[i2 as int], p, g);
                prefix.lemma_filter_push(s[i2 as int], digit_is(p, g));
                if g == dgi {
                    assert(s.take(i2 + 1).filter(digit_is(p, g)) =~= prefix.filter(
                        digit_is(p, g),
                    ).push(k));
                    assert(tmp@.subrange(off0[g] as int, cursors@[g] as int) =~= prefix.filter(
                        digit_is(p, g),
                    ).push(k));
                } else {
                    // The write lies outside this digit's region.
                    lemma_cnt_take_le(s, p, g, i2 as int);
                    lemma_cnt_below_mono(s, p, g + 1, 1024);
                    if g < dgi {
                        lemma_cnt_below_mono(s, p, g + 1, dgi);
                        assert((cursors@[g] as int) <= off0[dgi] as int);
                        assert(off0[dgi] as int <= pos as int);
                    } else {
                        lemma_cnt_below_mono(s, p, dgi + 1, g);
                        assert((pos as int) < off0[g] as int);
                    }
                    assert(s.take(i2 + 1).filter(digit_is(p, g)) =~= prefix.filter(
                        digit_is(p, g),
                    ));
                    let a = off0[g] as int;
                    let b = cursors@[g] as int;
                    assert(b - a == prefix.filter(digit_is(p, g)).len());
                    assert forall|m: int| 0 <= m < b - a implies tmp@[a + m] == prefix.filter(
                        digit_is(p, g),
                    )[m] by {
                        assert(a + m != pos as int);
                    }
                    assert(tmp@.subrange(off0[g] as int, cursors@[g] as int) =~= prefix.filter(
                        digit_is(p, g),
                    ));
                }
            }
        }
        i2 = i2 + 1;
    }

    proof {
        assert(s.take(n as int) =~= s);
        // The regions tile the output: position by position, the output is
        // the grouped sequence, so it is a permutation, and it is sorted by
        // the next pass's low bits.
        assert forall|g: int| 0 <= g < 1024 implies tmp@.subrange(
            off0[g] as int,
            off0[g] as int + cnt(s, p, g),
        ) == s.filter(digit_is(p, g)) by {
            lemma_cnt_below_mono(s, p, 0, g);
            lemma_cnt_below_mono(s, p, g + 1, 1024);
            assert(cursors@[g] as int == off0[g] as int + cnt(s, p, g));
        }
        lemma_parts_multiset(s, p);
        assert forall|dd: int| 0 <= dd <= 1024 implies tmp@.subrange(0, cnt_below(s, p, dd))
            =~= parts(s, p, dd) by {
            lemma_regions_give_parts(tmp@, s, p, dd);
        }
        assert(tmp@.subrange(0, n as int) =~= tmp@);
        assert(tmp@ == parts(s, p, 1024));

        // Sortedness at the next pass.
        assert forall|a: int, b: int| 0 <= a < b < n implies key_lt_at(
            #[trigger] tmp@[a],
            #[trigger] tmp@[b],
            p + 1,
        ) by {
            let da = find_region(s, p, a, 1024);
            let db = find_region(s, p, b, 1024);
            if db < da {
                lemma_cnt_below_mono(s, p, db + 1, da);
                assert(false);
            }
            lemma_region_element(tmp@, s, p, a, da);
            lemma_region_element(tmp@, s, p, b, db);
            lemma_low_bits_compose(tmp@[a], p);
            lemma_low_bits_compose(tmp@[b], p);
            if da == db {
                lemma_filter_preserves_sorted(s, digit_is(p, da), p);
                assert(key_lt_at(tmp@[a], tmp@[b], p));
            } else {
                assert(digit_of(tmp@[a], p) * digit_weight(p) + digit_weight(p) <= digit_of(
                    tmp@[b],
                    p,
                ) * digit_weight(p)) by (nonlinear_arith)
                    requires
                        digit_of(tmp@[a], p) < digit_of(tmp@[b], p),
                        digit_weight(p) >= 1,
                ;
            }
        }
    }
    tmp
}

/// Inside the grouped output, the element at a position of region `d` is an
/// element of that digit's filtered subsequence, at the matching offset.
proof fn lemma_region_element(r: Seq<MortonKey>, s: Seq<MortonKey>, pass: int, q: int, d: int)
    requires
        0 <= d < 1024,
        cnt_below(s, pass, d) <= q < cnt_below(s, pass, d + 1),
        cnt_below(s, pass, 1024) == s.len(),
        r.len() == s.len(),
        forall|g: int|
            0 <= g < 1024 ==> r.subrange(
                cnt_below(s, pass, g),
                cnt_below(s, pass, g) + cnt(s, pass, g),
            ) == s.filter(digit_is(pass, g)),
    ensures
        r[q] == s.filter(digit_is(pass, d))[q - cnt_below(s, pass, d)],
        digit_of(r[q], pass) == d,
        sorted_at(s, pass) ==> forall|q2: int|
            cnt_below(s, pass, d) <= q2 < q ==> key_lt_at(#[trigger] r[q2], r[q], pass),
{
    let lo = cnt_below(s, pass, d);
    let f = s.filter(digit_is(pass, d));
    lemma_cnt_below_mono(s, pass, 0, d);
    lemma_cnt_below_mono(s, pass, d + 1, 1024);
    assert(r.subrange(lo, lo + cnt(s, pass, d)) == f);
    assert(r[q] == r.subrange(lo, lo + cnt(s, pass, d))[q - lo]);
    lemma_filter_elems(s, digit_is(pass, d));
    if sorted_at(s, pass) {
        lemma_filter_preserves_sorted(s, digit_is(pass, d), pass);
        assert forall|q2: int| lo <= q2 < q implies key_lt_at(#[trigger] r[q2], r[q], pass) by {
            assert(r[q2] == r.subrange(lo, lo + cnt(s, pass, d))[q2 - lo]);
            assert(key_lt_at(f[q2 - lo], f[q - lo], pass));
        }
    }
}

/// The digit regions laid end to end are exactly the grouped sequence.
proof fn lemma_regions_give_parts(r: Seq<MortonKey>, s: Seq<MortonKey>, pass: int, d: int)
    requires
        0 <= d <= 1024,
        cnt_below(s, pass, 1024) == s.len(),
        r.len() == s.len(),
        forall|g: int|
            0 <= g < 1024 ==> r.subrange(
                cnt_below(s, pass, g),
                cnt_below(s, pass, g) + cnt(s, pass, g),
            ) == s.filter(digit_is(pass, g)),
    ensures
        r.subrange(0, cnt_below(s, pass, d)) =~= parts(s, pass, d),
    decreases d,
{
    if d > 0 {
        lemma_regions_give_parts(r, s, pass, d - 1);
        lemma_cnt_below_mono(s, pass, 0, d - 1);
        lemma_cnt_below_mono(s, pass, d, 1024);
        lemma_parts_len(s, pass, d - 1);
        assert(r.subrange(0, cnt_below(s, pass, d)) =~= r.subrange(0, cnt_below(s, pass, d - 1))
            + r.subrange(
            cnt_below(s, pass, d - 1),
            cnt_below(s, pass, d - 1) + cnt(s, pass, d - 1),
        ));
    }
}

/// Sort the keys into ascending Morton-code order, stably: ties in the code
/// are broken by the object ordinal, which the input carries in strictly
/// increasing order.
pub fn radix_sort_by_code(objects: Vec<MortonKey>) -> (r: Vec<MortonKey>)
    requires
        sorted_at(objects@, 0),
        forall|i: int| 0 <= i < objects@.len() ==> (#[trigger] objects@[i]).code < 0x40000000,
    ensures
        r@.len() == objects@.len(),
        r@.to_multiset() == objects@.to_multiset(),
        forall|i: int, j: int| 0 <= i < j < r@.len() ==> key_lt(#[trigger] r@[i], #[trigger] r@[j]),
{
    let ghost s = objects@;
    let r0 = counting_sort_pass(objects, 0);
    let r1 = counting_sort_pass(r0, 1);
    let r2 = counting_sort_pass(r1, 2);
    proof {
        assert forall|i: int, j: int| 0 <= i < j < r2@.len() implies key_lt(
            #[trigger] r2@[i],
            #[trigger] r2@[j],
        ) by {
            assert(r2@.contains(r2@[i]) && r2@.contains(r2@[j]));
            assert(r2@.to_multiset().contains(r2@[i]) && r2@.to_multiset().contains(r2@[j]));
            assert(s.to_multiset().contains(r2@[i]) && s.to_multiset().contains(r2@[j]));
            assert(s.contains(r2@[i]) && s.contains(r2@[j]));
            let a = choose|a: int| 0 <= a < s.len() && s[a] == r2@[i];
            let b = choose|b: int| 0 <= b < s.len() && s[b] == r2@[j];
            lemma_low_bits_full(r2@[i]);
            lemma_low_bits_full(r2@[j]);
            assert(key_lt_at(r2@[i], r2@[j], 3));
        }
    }
    r2
}

} // verus!
