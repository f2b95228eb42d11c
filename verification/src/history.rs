//! The bounded history of checkout traces: which recorded entries are shown
//! first and which are pruned once more than the limit are kept.
use vstd::multiset::Multiset;
use vstd::prelude::*;

use crate::mesh::TRACE_HISTORY_LIMIT;
use crate::text::{
    decimal, digit_char, lemma_lex_le_refl, lemma_lex_le_total, lemma_lex_le_trans, lex_le, lex_lt,
    padded_decimal, text_le,
};

verus! {

broadcast use vstd::seq_lib::group_seq_properties;

/// The file names of a list of history entries.
pub open spec fn name_views(names: Seq<String>) -> Seq<Seq<char>> {
    names.map_values(|s: String| s@)
}

/// Names ordered newest first: no name is followed by a later one.
pub open spec fn newest_first_order(v: Seq<Seq<char>>) -> bool {
    forall|i: int, j: int| 0 <= i < j < v.len() ==> lex_le(#[trigger] v[j], #[trigger] v[i])
}

/// The position of a latest name of a non-empty list.
fn index_of_newest(pool: &Vec<String>) -> (k: usize)
    requires
        pool@.len() > 0,
    ensures
        k < pool@.len(),
        forall|j: int| 0 <= j < pool@.len() ==> lex_le(#[trigger] pool@[j]@, pool@[k as int]@),
{
    let mut k: usize = 0;
    let mut i: usize = 1;
    proof {
        lemma_lex_le_refl(pool@[0]@);
    }
    while i < pool.len()
        invariant
            k < i <= pool@.len(),
            forall|j: int| 0 <= j < i ==> lex_le(#[trigger] pool@[j]@, pool@[k as int]@),
        decreases pool@.len() - i,
    {
        if !text_le(pool[i].as_str(), pool[k].as_str()) {
            proof {
                lemma_lex_le_total(pool@[i as int]@, pool@[k as int]@);
                lemma_lex_le_refl(pool@[i as int]@);
                assert forall|j: int| 0 <= j <= i implies lex_le(
                    #[trigger] pool@[j]@,
                    pool@[i as int]@,
                ) by {
                    if j < i {
                        lemma_lex_le_trans(pool@[j]@, pool@[k as int]@, pool@[i as int]@);
                    }
                }
            }
            k = i;
        }
        i += 1;
    }
    k
}

/// History entries ordered newest first.  Entry names are zero-padded
/// timestamps, so the latest name is the most recent entry.
pub fn newest_first(names: Vec<String>) -> (res: Vec<String>)
    ensures
        newest_first_order(name_views(res@)),
        name_views(res@).to_multiset() == name_views(names@).to_multiset(),
{
    let mut pool = names;
    let mut out: Vec<String> = Vec::new();
    proof {
        assert(name_views(out@) =~= Seq::<Seq<char>>::empty());
        assert(name_views(out@).to_multiset() =~= Multiset::<Seq<char>>::empty());
    }
    while pool.len() > 0
        invariant
            name_views(out@).to_multiset().add(name_views(pool@).to_multiset()) == name_views(
                names@,
            ).to_multiset(),
            newest_first_order(name_views(out@)),
            forall|a: int, b: int|
                0 <= a < out@.len() && 0 <= b < pool@.len() ==> lex_le(
                    #[trigger] pool@[b]@,
                    #[trigger] out@[a]@,
                ),
        decreases pool@.len(),
    {
        let k = index_of_newest(&pool);
        let ghost old_pool = pool@;
        let ghost old_out = out@;
        let x = pool.remove(k);
        proof {
            assert(name_views(pool@) =~= name_views(old_pool).remove(k as int));
            assert(name_views(old_pool)[k as int] == x@);
            let mo = name_views(old_pool).to_multiset();
            let mn = name_views(pool@).to_multiset();
            assert(mn =~= mo.remove(x@));
            assert(name_views(old_pool).contains(x@));
            assert(mo.count(x@) > 0);
            assert(mo =~= mn.insert(x@));
        }
        out.push(x);
        proof {
            assert(name_views(out@) =~= name_views(old_out).push(x@));
            assert(name_views(out@).to_multiset() =~= name_views(old_out).to_multiset().insert(
                x@,
            ));
            assert(name_views(out@).to_multiset().add(name_views(pool@).to_multiset())
                =~= name_views(old_out).to_multiset().add(name_views(old_pool).to_multiset()));
            assert forall|i: int, j: int|
                0 <= i < j < name_views(out@).len() implies lex_le(
                #[trigger] name_views(out@)[j],
                #[trigger] name_views(out@)[i],
            ) by {
                if j == out@.len() - 1 {
                    assert(old_pool[k as int] == x);
                    assert(lex_le(old_pool[k as int]@, old_out[i]@));
                } else {
                    assert(name_views(old_out)[i] == name_views(out@)[i]);
                    assert(name_views(old_out)[j] == name_views(out@)[j]);
                }
            }
            assert forall|a: int, b: int|
                0 <= a < out@.len() && 0 <= b < pool@.len() implies lex_le(
                #[trigger] pool@[b]@,
                #[trigger] out@[a]@,
            ) by {
                let ob = if b < k {
                    b
                } else {
                    b + 1
                };
                assert(pool@[b] == old_pool[ob]);
                if a == out@.len() - 1 {
                    assert(lex_le(old_pool[ob]@, old_pool[k as int]@));
                } else {
                    assert(out@[a] == old_out[a]);
                    assert(lex_le(old_pool[ob]@, old_out[a]@));
                }
            }
        }
    }
    proof {
        assert(name_views(pool@).len() == 0);
        assert(name_views(pool@).to_multiset().len() == 0);
        assert(name_views(pool@).to_multiset() =~= Multiset::<Seq<char>>::empty());
        assert(name_views(out@).to_multiset() =~= name_views(out@).to_multiset().add(
            Multiset::<Seq<char>>::empty(),
        ));
    }
    out
}

/// The smaller of a history's size and the limit.
pub open spec fn kept_count(n: nat) -> nat {
    if n < TRACE_HISTORY_LIMIT {
        n
    } else {
        TRACE_HISTORY_LIMIT as nat
    }
}

/// Splits the history entries into those kept (the newest, at most the
/// limit) and those pruned, each newest first.
pub fn split_trace_history(names: Vec<String>) -> (res: (Vec<String>, Vec<String>))
    ensures
        res.0@.len() == kept_count(names@.len()),
        newest_first_order(name_views(res.0@) + name_views(res.1@)),
        (name_views(res.0@) + name_views(res.1@)).to_multiset() == name_views(names@).to_multiset(),
{
    let sorted = newest_first(names);
    let mut kept: Vec<String> = Vec::new();
    let mut pruned: Vec<String> = Vec::new();
    let mut i: usize = 0;
    proof {
        assert(name_views(kept@) + name_views(pruned@) =~= name_views(sorted@).take(0));
    }
    while i < sorted.len()
        invariant
            i <= sorted@.len(),
            kept@.len() == kept_count(i as nat),
            kept@.len() + pruned@.len() == i,
            name_views(kept@) + name_views(pruned@) == name_views(sorted@).take(i as int),
        decreases sorted@.len() - i,
    {
        let ghost old_kept = kept@;
        let ghost old_pruned = pruned@;
        let ghost x = sorted@[i as int]@;
        assert(name_views(sorted@).take(i + 1) =~= name_views(sorted@).take(i as int).push(x));
        if i < TRACE_HISTORY_LIMIT {
            kept.push(sorted[i].clone());
            proof {
                assert(old_pruned.len() == 0);
                assert(name_views(kept@) =~= name_views(old_kept).push(x));
                assert(name_views(pruned@) =~= Seq::<Seq<char>>::empty());
                assert(name_views(old_pruned) =~= Seq::<Seq<char>>::empty());
                assert(name_views(kept@) + name_views(pruned@) =~= (name_views(old_kept)
                    + name_views(old_pruned)).push(x));
            }
        } else {
            pruned.push(sorted[i].clone());
            proof {
                assert(name_views(pruned@) =~= name_views(old_pruned).push(x));
                assert(name_views(kept@) + name_views(pruned@) =~= (name_views(old_kept)
                    + name_views(old_pruned)).push(x));
            }
        }
        i += 1;
    }
    proof {
        assert(name_views(sorted@).take(i as int) =~= name_views(sorted@));
        assert(name_views(sorted@).to_multiset().len() == name_views(names@).to_multiset().len());
        assert(name_views(sorted@).len() == sorted@.len());
        assert(name_views(names@).len() == names@.len());
    }
    (kept, pruned)
}


/// Ten to the power `k`.
pub open spec fn pow10(k: nat) -> nat
    decreases k,
{
    if k == 0 {
        1
    } else {
        10 * pow10((k - 1) as nat)
    }
}

/// The last `w` decimal digits of `n`, most significant first.
spec fn fixed_digits(n: nat, w: nat) -> Seq<char>
    decreases w,
{
    if w == 0 {
        Seq::empty()
    } else {
        fixed_digits(n / 10, (w - 1) as nat).push(digit_char(n % 10))
    }
}

spec fn zeros(k: nat) -> Seq<char> {
    Seq::new(k, |i: int| '0')
}

proof fn lemma_fixed_digits_of_zero(w: nat)
    ensures
        fixed_digits(0, w) == zeros(w),
    decreases w,
{
    if w > 0 {
        lemma_fixed_digits_of_zero((w - 1) as nat);
        assert(digit_char(0) == '0');
        assert(zeros(w) =~= zeros((w - 1) as nat).push('0'));
    }
}

proof fn lemma_fixed_digits_len(n: nat, w: nat)
    ensures
        fixed_digits(n, w).len() == w,
    decreases w,
{
    if w > 0 {
        lemma_fixed_digits_len(n / 10, (w - 1) as nat);
    }
}

proof fn lemma_decimal_fits(n: nat, w: nat)
    requires
        w >= 1,
        n < pow10(w),
    ensures
        decimal(n).len() <= w,
    decreases w,
{
    if n >= 10 {
        assert(n / 10 < pow10((w - 1) as nat)) by (nonlinear_arith)
            requires
                n < 10 * pow10((w - 1) as nat),
                n >= 10,
        ;
        assert(w - 1 >= 1) by {
            if w == 1 {
                assert(pow10(0) == 1);
            }
        }
        lemma_decimal_fits(n / 10, (w - 1) as nat);
    }
}

proof fn lemma_padded_is_fixed(n: nat, w: nat)
    requires
        decimal(n).len() <= w,
    ensures
        zeros((w - decimal(n).len()) as nat) + decimal(n) == fixed_digits(n, w),
    decreases w,
{
    if n < 10 {
        assert(w >= 1);
        lemma_fixed_digits_of_zero((w - 1) as nat);
        assert(n / 10 == 0 && n % 10 == n);
        assert(zeros((w - 1) as nat) + seq![digit_char(n)] =~= zeros((w - 1) as nat).push(
            digit_char(n),
        ));
    } else {
        let d = decimal(n / 10);
        assert(decimal(n) == d.push(digit_char(n % 10)));
        lemma_padded_is_fixed(n / 10, (w - 1) as nat);
        assert(zeros((w - decimal(n).len()) as nat) + decimal(n) =~= (zeros(
            ((w - 1) as nat - d.len()) as nat,
        ) + d).push(digit_char(n % 10)));
    }
}

proof fn lemma_lex_lt_extend(p: Seq<char>, q: Seq<char>, r: Seq<char>, t: Seq<char>)
    requires
        p.len() == q.len(),
        lex_lt(p, q),
    ensures
        lex_lt(p + r, q + t),
    decreases p.len(),
{
    if p.len() == 0 {
        assert(p =~= q);
    } else if p[0] != q[0] {
        assert((p + r)[0] == p[0]);
        assert((q + t)[0] == q[0]);
    } else {
        assert(p.drop_first() != q.drop_first()) by {
            if p.drop_first() == q.drop_first() {
                assert(p =~= q);
            }
        }
        lemma_lex_lt_extend(p.drop_first(), q.drop_first(), r, t);
        assert((p + r).drop_first() =~= p.drop_first() + r);
        assert((q + t).drop_first() =~= q.drop_first() + t);
        assert((p + r)[0] == (q + t)[0]);
    }
}

proof fn lemma_lex_lt_last(p: Seq<char>, x: char, y: char)
    requires
        (x as u32) < (y as u32),
    ensures
        lex_lt(p.push(x), p.push(y)),
    decreases p.len(),
{
    if p.len() == 0 {
        assert(p.push(x)[0] == x);
        assert(p.push(y)[0] == y);
    } else {
        lemma_lex_lt_last(p.drop_first(), x, y);
        assert(p.push(x).drop_first() =~= p.drop_first().push(x));
        assert(p.push(y).drop_first() =~= p.drop_first().push(y));
        assert(p.push(x)[0] == p.push(y)[0]);
        assert(p.push(x).last() != p.push(y).last());
    }
}

proof fn lemma_fixed_digits_order(a: nat, b: nat, w: nat)
    requires
        a < b < pow10(w),
    ensures
        lex_lt(fixed_digits(a, w), fixed_digits(b, w)),
    decreases w,
{
    if w == 0 {
        assert(false);
    } else {
        let w1 = (w - 1) as nat;
        assert(a / 10 <= b / 10 && (a / 10 == b / 10 ==> a % 10 < b % 10)) by (nonlinear_arith)
            requires
                a < b,
        ;
        assert(b / 10 < pow10(w1)) by (nonlinear_arith)
            requires
                b < 10 * pow10(w1),
        ;
        lemma_fixed_digits_len(a / 10, w1);
        lemma_fixed_digits_len(b / 10, w1);
        if a / 10 < b / 10 {
            lemma_fixed_digits_order(a / 10, b / 10, w1);
            lemma_lex_lt_extend(
                fixed_digits(a / 10, w1),
                fixed_digits(b / 10, w1),
                seq![digit_char(a % 10)],
                seq![digit_char(b % 10)],
            );
            assert(fixed_digits(a / 10, w1) + seq![digit_char(a % 10)] =~= fixed_digits(a, w));
            assert(fixed_digits(b / 10, w1) + seq![digit_char(b % 10)] =~= fixed_digits(b, w));
        } else {
            lemma_lex_lt_last(fixed_digits(a / 10, w1), digit_char(a % 10), digit_char(b % 10));
        }
    }
}

/// Later recordings get later names: below `10^20` nanoseconds the padded
/// history file names sort as their timestamps do, so the newest entry is
/// the one whose name sorts last.
pub proof fn trace_file_names_follow_time(a: nat, b: nat)
    requires
        a < b < pow10(20),
    ensures
        lex_lt(padded_decimal(a, 20) + ".json"@, padded_decimal(b, 20) + ".json"@),
{
    assert(a < pow10(20));
    lemma_decimal_fits(a, 20);
    lemma_decimal_fits(b, 20);
    lemma_padded_is_fixed(a, 20);
    lemma_padded_is_fixed(b, 20);
    assert(padded_decimal(a, 20) == fixed_digits(a, 20)) by {
        if decimal(a).len() == 20 {
            assert(zeros(0) + decimal(a) =~= decimal(a));
        }
    }
    assert(padded_decimal(b, 20) == fixed_digits(b, 20)) by {
        if decimal(b).len() == 20 {
            assert(zeros(0) + decimal(b) =~= decimal(b));
        }
    }
    lemma_fixed_digits_order(a, b, 20);
    lemma_fixed_digits_len(a, 20);
    lemma_fixed_digits_len(b, 20);
    lemma_lex_lt_extend(fixed_digits(a, 20), fixed_digits(b, 20), ".json"@, ".json"@);
}

} // verus!
