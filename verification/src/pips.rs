//! Counting pips: every detected half of a domino carries a label
//! `pip-0` ... `pip-12`; the count of a photograph is the sum of the numbers
//! on its labels.
use vstd::prelude::*;
use crate::number::{digit_char, nat_decimal};

verus! {

/// The highest number of pips that a label can carry.
pub const MAX_PIPS: u32 = 12;

/// The label of a half with `n` pips: `pip-` followed by `n` in decimal.
pub open spec fn pip_label(n: nat) -> Seq<char> {
    seq!['p', 'i', 'p', '-'] + nat_decimal(n)
}

/// The number of pips that `label` stands for: `n` where `label` is
/// `pip_label(n)` for some `n` up to `MAX_PIPS`, and 0 for any other label.
pub open spec fn pip_value_of(label: Seq<char>) -> nat {
    if exists|n: nat| n <= MAX_PIPS && label == pip_label(n) {
        choose|n: nat| n <= MAX_PIPS && label == pip_label(n)
    } else {
        0
    }
}

/// The sum of the pips of `labels`.
pub open spec fn total_pips_of(labels: Seq<Seq<char>>) -> nat
    decreases labels.len(),
{
    if labels.len() == 0 {
        0
    } else {
        total_pips_of(labels.drop_last()) + pip_value_of(labels.last())
    }
}

/// The contents of a vector of strings.
pub open spec fn label_texts(labels: Seq<String>) -> Seq<Seq<char>> {
    labels.map_values(|l: String| l@)
}

proof fn lemma_pip_label_shape(n: nat)
    requires
        n <= MAX_PIPS,
    ensures
        n < 10 ==> pip_label(n) == seq!['p', 'i', 'p', '-', digit_char(n)],
        n >= 10 ==> pip_label(n) == seq!['p', 'i', 'p', '-', '1', digit_char((n - 10) as nat)],
{
    reveal_with_fuel(nat_decimal, 2);
    if n < 10 {
        assert(pip_label(n) =~= seq!['p', 'i', 'p', '-', digit_char(n)]);
    } else {
        assert(n / 10 == 1 && n % 10 == n - 10);
        assert(digit_char(1) == '1');
        assert(pip_label(n) =~= seq!['p', 'i', 'p', '-', '1', digit_char((n - 10) as nat)]);
    }
}

proof fn lemma_pip_value_is(label: Seq<char>, v: nat)
    requires
        v <= MAX_PIPS,
        label == pip_label(v),
    ensures
        pip_value_of(label) == v,
{
    lemma_pip_label_shape(v);
    assert forall|n: nat| n <= MAX_PIPS && label == #[trigger] pip_label(n) implies n == v by {
        lemma_pip_label_shape(n);
        if n < 10 {
            assert(label.len() == 5);
            assert(v < 10);
            assert(digit_char(n) as u32 == 48 + n);
            assert(digit_char(v) as u32 == 48 + v);
            assert(label[4] == digit_char(n));
            assert(label[4] == digit_char(v));
        } else {
            assert(label.len() == 6);
            assert(v >= 10);
            assert(digit_char((n - 10) as nat) as u32 == 48 + n - 10);
            assert(digit_char((v - 10) as nat) as u32 == 48 + v - 10);
            assert(label[5] == digit_char((n - 10) as nat));
            assert(label[5] == digit_char((v - 10) as nat));
        }
    }
}

proof fn lemma_pip_value_none(label: Seq<char>)
    requires
        forall|n: nat| n <= MAX_PIPS ==> label != #[trigger] pip_label(n),
    ensures
        pip_value_of(label) == 0,
{
}

/// The number of pips that `label` stands for (0 for a label that is not
/// one of `pip-0` ... `pip-12`).
pub fn pip_value(label: &str) -> (v: u32)
    ensures
        v == pip_value_of(label@),
{
    let ghost s = label@;
    let n = label.unicode_len();
    if n != 5 && n != 6 {
        proof {
            assert forall|k: nat| k <= MAX_PIPS implies s != #[trigger] pip_label(k) by {
                lemma_pip_label_shape(k);
            }
            lemma_pip_value_none(s);
        }
        return 0;
    }
    if label.get_char(0) != 'p' || label.get_char(1) != 'i' || label.get_char(2) != 'p'
        || label.get_char(3) != '-' {
        proof {
            assert forall|k: nat| k <= MAX_PIPS implies s != #[trigger] pip_label(k) by {
                lemma_pip_label_shape(k);
            }
            lemma_pip_value_none(s);
        }
        return 0;
    }
    if n == 5 {
        let d = label.get_char(4) as u32;
        if 48 <= d && d <= 57 {
            let v = d - 48;
            proof {
                assert(digit_char(v as nat) == s[4]);
                assert(s =~= seq!['p', 'i', 'p', '-', digit_char(v as nat)]);
                lemma_pip_label_shape(v as nat);
                lemma_pip_value_is(s, v as nat);
            }
            return v;
        }
    } else {
        let t = label.get_char(4);
        let d = label.get_char(5) as u32;
        if t == '1' && 48 <= d && d <= 50 {
            let v = 10 + (d - 48);
            proof {
                assert(digit_char((v - 10) as nat) == s[5]);
                assert(s =~= seq!['p', 'i', 'p', '-', '1', digit_char((v - 10) as nat)]);
                lemma_pip_label_shape(v as nat);
                lemma_pip_value_is(s, v as nat);
            }
            return v;
        }
    }
    proof {
        assert forall|k: nat| k <= MAX_PIPS implies s != #[trigger] pip_label(k) by {
            lemma_pip_label_shape(k);
            if k < 10 {
                if n == 5 {
                    assert(s[4] == digit_char(k) ==> 48 <= s[4] as u32 <= 57);
                }
            } else {
                if n == 6 {
                    assert(s[5] == digit_char((k - 10) as nat) ==> 48 <= s[5] as u32 <= 50);
                }
            }
        }
        lemma_pip_value_none(s);
    }
    0
}

/// The label of `n` pips stands for `n` pips, for every `n` up to
/// `MAX_PIPS`.
pub proof fn law_pip_label_round_trip(n: nat)
    requires
        n <= MAX_PIPS,
    ensures
        pip_value_of(pip_label(n)) == n,
{
    lemma_pip_value_is(pip_label(n), n);
}

/// No label stands for more than `MAX_PIPS` pips.
pub proof fn law_pip_value_bounded(label: Seq<char>)
    ensures
        pip_value_of(label) <= MAX_PIPS,
{
    lemma_pip_value_bound(label);
}

/// The count of two lists of labels together is the sum of their counts.
pub proof fn law_total_is_additive(a: Seq<Seq<char>>, b: Seq<Seq<char>>)
    ensures
        total_pips_of(a + b) == total_pips_of(a) + total_pips_of(b),
    decreases b.len(),
{
    if b.len() == 0 {
        assert(a + b =~= a);
    } else {
        law_total_is_additive(a, b.drop_last());
        assert((a + b).drop_last() =~= a + b.drop_last());
    }
}

/// The count of a single label is the number of pips it stands for; with
/// `law_total_is_additive`, a count is the sum of the pips of its labels.
pub proof fn law_total_of_one_label(label: Seq<char>)
    ensures
        total_pips_of(seq![label]) == pip_value_of(label),
{
    assert(seq![label].drop_last() =~= Seq::<Seq<char>>::empty());
    assert(total_pips_of(Seq::<Seq<char>>::empty()) == 0);
    assert(seq![label].last() == label);
}

/// The count of halves labelled `pip_label(n)` for each `n` of `ns` is the
/// sum of `ns`.
pub proof fn law_total_of_pip_labels(ns: Seq<nat>)
    requires
        forall|i: int| 0 <= i < ns.len() ==> #[trigger] ns[i] <= MAX_PIPS,
    ensures
        total_pips_of(ns.map_values(|n: nat| pip_label(n))) == sum_of(ns),
    decreases ns.len(),
{
    if ns.len() > 0 {
        let d = ns.drop_last();
        assert forall|i: int| 0 <= i < d.len() implies #[trigger] d[i] <= MAX_PIPS by {
            assert(d[i] == ns[i]);
        }
        law_total_of_pip_labels(d);
        assert(ns.map_values(|n: nat| pip_label(n)).drop_last() =~= d.map_values(
            |n: nat| pip_label(n),
        ));
        assert(ns[ns.len() - 1] <= MAX_PIPS);
        law_pip_label_round_trip(ns.last());
    }
}

/// The sum of a sequence of numbers.
pub open spec fn sum_of(ns: Seq<nat>) -> nat
    decreases ns.len(),
{
    if ns.len() == 0 {
        0
    } else {
        sum_of(ns.drop_last()) + ns.last()
    }
}

/// A count is at most `MAX_PIPS` per label.
pub proof fn law_total_bounded(labels: Seq<Seq<char>>)
    ensures
        total_pips_of(labels) <= MAX_PIPS * labels.len(),
{
    lemma_total_bound(labels);
}

proof fn lemma_pip_value_bound(label: Seq<char>)
    ensures
        pip_value_of(label) <= MAX_PIPS,
{
}

proof fn lemma_total_bound(labels: Seq<Seq<char>>)
    ensures
        total_pips_of(labels) <= MAX_PIPS * labels.len(),
    decreases labels.len(),
{
    if labels.len() > 0 {
        lemma_total_bound(labels.drop_last());
        lemma_pip_value_bound(labels.last());
    }
}

/// The sum of the pips of all `labels`.
pub fn total_pips(labels: &Vec<String>) -> (total: u64)
    requires
        labels.len() <= u64::MAX / MAX_PIPS as u64,
    ensures
        total == total_pips_of(label_texts(labels@)),
{
    let n = labels.len();
    let mut total: u64 = 0;
    let mut i: usize = 0;
    while i < n
        invariant
            n == labels@.len(),
            n <= u64::MAX / MAX_PIPS as u64,
            i <= n,
            total == total_pips_of(label_texts(labels@).take(i as int)),
        decreases n - i,
    {
        let v = pip_value(labels[i].as_str());
        proof {
            let texts = label_texts(labels@);
            assert(texts.take(i + 1).drop_last() =~= texts.take(i as int));
            assert(texts.take(i + 1).last() == labels@[i as int]@);
            lemma_total_bound(texts.take(i + 1));
            assert(12 * (i + 1) <= 12 * n) by (nonlinear_arith)
                requires
                    i < n,
            ;
            assert(12 * n <= u64::MAX) by (nonlinear_arith)
                requires
                    n <= u64::MAX / 12,
            ;
        }
        total = total + v as u64;
        i += 1;
    }
    assert(label_texts(labels@).take(n as int) =~= label_texts(labels@));
    total
}

} // verus!
