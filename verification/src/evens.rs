//! The even-number formatter: keep the even values, sort them ascending,
//! and print them as decimal numbers joined by " - ".

use crate::text::{bytes_to_string, lemma_ascii_bytes_decode};
use vstd::prelude::*;
use vstd::relations::{sorted_by, total_ordering};
use vstd::seq_lib::lemma_sorted_unique;
use vstd::utf8::decode_utf8;

verus! {

/// The ascending order on 32-bit integers.
pub open spec fn i32_leq() -> spec_fn(i32, i32) -> bool {
    |a: i32, b: i32| a <= b
}

/// Whether a value is even.
pub open spec fn is_even(x: i32) -> bool {
    x % 2 == 0
}

/// The decimal digits of a natural number, as ASCII bytes.
pub open spec fn dec_digits(n: nat) -> Seq<u8>
    decreases n,
{
    if n < 10 {
        seq![(0x30 + n) as u8]
    } else {
        dec_digits(n / 10).push((0x30 + n % 10) as u8)
    }
}

/// The decimal form of an integer, as ASCII bytes, with a leading minus
/// sign when it is negative.
pub open spec fn render_int(x: int) -> Seq<u8> {
    if x < 0 {
        seq![0x2du8] + dec_digits((-x) as nat)
    } else {
        dec_digits(x as nat)
    }
}

/// The list rendered as decimal numbers joined by " - ".
pub open spec fn render_list(s: Seq<i32>) -> Seq<u8>
    decreases s.len(),
{
    if s.len() == 0 {
        Seq::empty()
    } else if s.len() == 1 {
        render_int(s[0] as int)
    } else {
        render_int(s[0] as int) + seq![0x20u8, 0x2d, 0x20] + render_list(s.drop_first())
    }
}

/// What the formatter prints for an input list: its even values, sorted
/// ascending, joined by " - ".
pub open spec fn evens_output(s: Seq<i32>) -> Seq<u8> {
    render_list(s.filter(|x: i32| is_even(x)).sort_by(i32_leq()))
}

/// The decimal digits of a number are ASCII.
proof fn lemma_dec_digits_ascii(n: nat)
    ensures
        forall|i: int| 0 <= i < dec_digits(n).len() ==> #[trigger] dec_digits(n)[i] < 0x80,
        dec_digits(n).len() >= 1,
    decreases n,
{
    if n >= 10 {
        lemma_dec_digits_ascii(n / 10);
        let s = dec_digits(n);
        let t = dec_digits(n / 10);
        assert(forall|i: int| 0 <= i < t.len() ==> s[i] == t[i]);
    }
}

/// The decimal form of an integer is ASCII.
proof fn lemma_render_int_ascii(x: int)
    ensures
        forall|i: int| 0 <= i < render_int(x).len() ==> #[trigger] render_int(x)[i] < 0x80,
{
    if x < 0 {
        lemma_dec_digits_ascii((-x) as nat);
        let r = render_int(x);
        let d = dec_digits((-x) as nat);
        assert(forall|i: int| 0 <= i < r.len() ==> #[trigger] r[i] < 0x80) by {
            assert(r[0] == 0x2d);
            assert(forall|i: int| 1 <= i < r.len() ==> r[i] == d[i - 1]);
        }
    } else {
        lemma_dec_digits_ascii(x as nat);
    }
}

/// Everything the formatter renders is ASCII.
proof fn lemma_render_list_ascii(s: Seq<i32>)
    ensures
        forall|i: int| 0 <= i < render_list(s).len() ==> #[trigger] render_list(s)[i] < 0x80,
    decreases s.len(),
{
    if s.len() == 0 {
    } else if s.len() == 1 {
        lemma_render_int_ascii(s[0] as int);
    } else {
        lemma_render_int_ascii(s[0] as int);
        lemma_render_list_ascii(s.drop_first());
        let a = render_int(s[0] as int);
        let sep = seq![0x20u8, 0x2d, 0x20];
        let rest = render_list(s.drop_first());
        let whole = render_list(s);
        assert(whole == a + sep + rest);
        assert(forall|i: int| 0 <= i < whole.len() ==> #[trigger] whole[i] < 0x80) by {
            assert(forall|i: int| 0 <= i < a.len() ==> whole[i] == a[i]);
            assert(sep[0] == 0x20 && sep[1] == 0x2d && sep[2] == 0x20);
            assert(forall|i: int| a.len() <= i < a.len() + 3 ==> whole[i] == sep[i - a.len()]);
            assert(forall|i: int|
                a.len() + 3 <= i < whole.len() ==> whole[i] == rest[i - a.len() - 3]);
        }
    }
}

/// Appending a value to a list appends a separator and its decimal form to
/// the rendering, or is just the decimal form for the first value.
proof fn lemma_render_list_push(s: Seq<i32>, x: i32)
    ensures
        render_list(s.push(x)) == if s.len() == 0 {
            render_int(x as int)
        } else {
            render_list(s) + seq![0x20u8, 0x2d, 0x20] + render_int(x as int)
        },
    decreases s.len(),
{
    let p = s.push(x);
    if s.len() == 0 {
        assert(p.len() == 1 && p[0] == x);
    } else {
        assert(p[0] == s[0]);
        assert(p.drop_first() =~= s.drop_first().push(x));
        lemma_render_list_push(s.drop_first(), x);
        if s.len() == 1 {
            assert(s.drop_first().len() == 0);
            assert(render_list(p) =~= render_list(s) + seq![0x20u8, 0x2d, 0x20] + render_int(
                x as int,
            ));
        } else {
            assert(render_list(p) =~= render_list(s) + seq![0x20u8, 0x2d, 0x20] + render_int(
                x as int,
            ));
        }
    }
}

/// Appends the decimal digits of `n` to `out`.
fn push_digits(out: &mut Vec<u8>, n: u32)
    ensures
        final(out)@ == old(out)@ + dec_digits(n as nat),
    decreases n,
{
    if n < 10 {
        out.push(0x30 + (n as u8));
        proof {
            assert(final(out)@ =~= old(out)@ + dec_digits(n as nat));
        }
    } else {
        push_digits(out, n / 10);
        out.push(0x30 + ((n % 10) as u8));
        proof {
            assert((n as nat) / 10 == (n / 10) as nat);
            assert(final(out)@ =~= old(out)@ + dec_digits(n as nat));
        }
    }
}

/// Appends the decimal form of `x` to `out`.
fn push_i32(out: &mut Vec<u8>, x: i32)
    ensures
        final(out)@ == old(out)@ + render_int(x as int),
{
    if x < 0 {
        out.push(0x2d);
        let m: u32 = (-(x as i64)) as u32;
        proof {
            assert(m as nat == (-(x as int)) as nat);
        }
        push_digits(out, m);
        proof {
            assert(final(out)@ =~= old(out)@ + render_int(x as int));
        }
    } else {
        push_digits(out, x as u32);
    }
}

/// Keeps the even values of the input, sorts them ascending, and renders
/// them as decimal numbers joined by " - ".
pub fn get_even_numbers(numbers: &[i32]) -> (r: String)
    ensures
        r@ == decode_utf8(evens_output(numbers@)),
{
    broadcast use vstd::seq_lib::group_to_multiset_ensures;

    let ghost pred = |x: i32| is_even(x);
    let mut evens: Vec<i32> = Vec::new();
    let n = numbers.len();
    let mut i: usize = 0;
    while i < n
        invariant
            0 <= i <= n == numbers@.len(),
            pred == (|x: i32| is_even(x)),
            evens@ == numbers@.take(i as int).filter(pred),
        decreases n - i,
    {
        let ghost prefix = numbers@.take(i as int);
        let x = *vstd::slice::slice_index_get(numbers, i);
        if x % 2 == 0 {
            evens.push(x);
        }
        i += 1;
        proof {
            let prefix2 = numbers@.take(i as int);
            assert(prefix2 =~= prefix.push(x));
            assert(prefix2.drop_last() =~= prefix);
            reveal(Seq::filter);
            assert(evens@ =~= prefix2.filter(pred));
        }
    }
    proof {
        assert(numbers@.take(n as int) =~= numbers@);
    }
    // Insertion sort: build the sorted list by inserting each value at the
    // first position whose element exceeds it.
    let ghost leq = i32_leq();
    proof {
        assert(total_ordering(leq)) by {
            assert(vstd::relations::reflexive(leq));
            assert(vstd::relations::antisymmetric(leq));
            assert(vstd::relations::transitive(leq));
            assert(vstd::relations::strongly_connected(leq));
        }
    }
    let mut sorted: Vec<i32> = Vec::new();
    let m = evens.len();
    let mut j: usize = 0;
    proof {
        assert(sorted@ =~= evens@.take(0));
    }
    while j < m
        invariant
            0 <= j <= m == evens@.len(),
            leq == i32_leq(),
            sorted_by(sorted@, leq),
            sorted@.to_multiset() == evens@.take(j as int).to_multiset(),
        decreases m - j,
    {
        broadcast use vstd::seq_lib::group_to_multiset_ensures;

        let x = evens[j];
        let slen = sorted.len();
        let mut p: usize = 0;
        while p < slen
            invariant
                0 <= p <= slen == sorted@.len(),
                forall|k: int| 0 <= k < p ==> #[trigger] sorted@[k] <= x,
            ensures
                0 <= p <= slen == sorted@.len(),
                forall|k: int| 0 <= k < p ==> #[trigger] sorted@[k] <= x,
                p < slen ==> x < sorted@[p as int],
            decreases slen - p,
        {
            if sorted[p] > x {
                break ;
            }
            p += 1;
        }
        let ghost before = sorted@;
        sorted.insert(p, x);
        j += 1;
        proof {
            vstd::seq_lib::to_multiset_insert(before, p as int, x);
            assert(evens@.take(j as int) =~= evens@.take(j - 1).push(evens@[j - 1]));
            assert forall|k: int| p <= k < before.len() implies x < before[k] by {
                assert(x < before[p as int]);
                if k > p {
                    assert(leq(before[p as int], before[k]));
                }
            }
            assert(sorted_by(sorted@, leq)) by {
                assert forall|a: int, b: int|
                    0 <= a < b < sorted@.len() implies #[trigger] leq(sorted@[a], sorted@[b]) by {
                    assert(forall|k: int| 0 <= k < p ==> sorted@[k] == before[k]);
                    assert(forall|k: int| p < k < sorted@.len() ==> sorted@[k] == before[k - 1]);
                    assert(sorted@[p as int] == x);
                    if b < p {
                        assert(leq(before[a], before[b]));
                    } else if b == p {
                        assert(before[a] <= x);
                    } else if a < p {
                        assert(before[a] <= x);
                        assert(x < before[b - 1]);
                    } else if a == p {
                        assert(x < before[b - 1]);
                    } else {
                        assert(leq(before[a - 1], before[b - 1]));
                    }
                }
            }
        }
    }
    proof {
        assert(evens@.take(m as int) =~= evens@);
        let spec_sorted = evens@.sort_by(leq);
        evens@.lemma_sort_by_ensures(leq);
        lemma_sorted_unique(sorted@, spec_sorted, leq);
        assert(sorted@ == spec_sorted);
    }
    // Render the sorted values.
    let mut out: Vec<u8> = Vec::new();
    let slen2 = sorted.len();
    let mut k: usize = 0;
    while k < slen2
        invariant
            0 <= k <= slen2 == sorted@.len(),
            out@ == render_list(sorted@.take(k as int)),
        decreases slen2 - k,
    {
        let ghost prefix = sorted@.take(k as int);
        let x = sorted[k];
        if k > 0 {
            out.push(0x20);
            out.push(0x2d);
            out.push(0x20);
        }
        push_i32(&mut out, x);
        k += 1;
        proof {
            lemma_render_list_push(prefix, x);
            assert(sorted@.take(k as int) =~= prefix.push(x));
            if prefix.len() == 0 {
                assert(out@ =~= render_list(sorted@.take(k as int)));
            } else {
                assert(out@ =~= render_list(prefix) + seq![0x20u8, 0x2d, 0x20] + render_int(
                    x as int,
                ));
            }
        }
    }
    proof {
        assert(sorted@.take(slen2 as int) =~= sorted@);
    }
    let ghost ob = out@;
    proof {
        lemma_render_list_ascii(sorted@);
        lemma_ascii_bytes_decode(ob);
    }
    match bytes_to_string(out) {
        Some(s) => s,
        None => {
            proof {
                assert(false);
            }
            String::new()
        },
    }
}

} // verus!
