//! Textual rendering of a sequence of `i32` values as `[a, b, c]`.
use vstd::prelude::*;

verus! {

/// The character of a decimal digit `d < 10`.
pub open spec fn digit_char(d: nat) -> char {
    (48 + d) as char
}

/// Decimal digits of a natural number, most significant first, no leading zeros.
pub open spec fn digits(n: nat) -> Seq<char>
    decreases n,
{
    if n < 10 {
        seq![digit_char(n)]
    } else {
        digits(n / 10).push(digit_char(n % 10))
    }
}

/// Decimal text of an integer, with a leading `-` when it is negative.
pub open spec fn decimal(v: int) -> Seq<char> {
    if v < 0 {
        seq!['-'] + digits((-v) as nat)
    } else {
        digits(v as nat)
    }
}

/// The text written for the values `s`, each one preceded by `", "` except
/// the very first of a listing (the one written while `first` holds).
pub open spec fn listing(s: Seq<i32>, first: bool) -> Seq<char>
    decreases s.len(),
{
    if s.len() == 0 {
        Seq::empty()
    } else {
        (if first {
            Seq::empty()
        } else {
            seq![',', ' ']
        }) + decimal(s[0] as int) + listing(s.drop_first(), false)
    }
}

/// `[` then the values separated by `", "`, then `]`.
pub open spec fn bracketed(s: Seq<i32>) -> Seq<char> {
    seq!['['] + listing(s, true) + seq![']']
}

/// Writing a listing in two parts gives the listing of the whole.
pub proof fn lemma_listing_append(a: Seq<i32>, b: Seq<i32>, first: bool)
    ensures
        listing(a + b, first) == listing(a, first) + listing(b, first && a.len() == 0),
    decreases a.len(),
{
    if a.len() == 0 {
        assert(a + b =~= b);
        assert(listing(a, first) == Seq::<char>::empty());
        assert(listing(a + b, first) =~= listing(a, first) + listing(b, first && a.len() == 0));
    } else {
        lemma_listing_append(a.drop_first(), b, false);
        assert((a + b).drop_first() =~= a.drop_first() + b);
        assert((a + b)[0] == a[0]);
        assert(listing(a + b, first) =~= listing(a, first) + listing(b, first && a.len() == 0));
    }
}

/// The listing of a single value.
pub proof fn lemma_listing_one(v: i32, first: bool)
    ensures
        listing(seq![v], first) == (if first {
            Seq::empty()
        } else {
            seq![',', ' ']
        }) + decimal(v as int),
{
    assert(seq![v].drop_first() =~= Seq::<i32>::empty());
    assert(listing(Seq::<i32>::empty(), false) == Seq::<char>::empty());
    assert(listing(seq![v], first) =~= (if first {
        Seq::empty()
    } else {
        seq![',', ' ']
    }) + decimal(v as int));
}

/// Decimal text law, single digits: `0..=9` is written as the one
/// character whose code is `48 + d`.
pub proof fn lemma_decimal_digit(d: int)
    requires
        0 <= d <= 9,
    ensures
        decimal(d).len() == 1,
        decimal(d)[0] as int == 48 + d,
{
}

/// Decimal text law, several digits: a number of at least 10 is written as
/// the text of its quotient by ten followed by the text of its last digit.
pub proof fn lemma_decimal_step(v: int)
    requires
        v >= 10,
    ensures
        decimal(v) == decimal(v / 10) + decimal(v % 10),
{
    assert(decimal(v % 10) == seq![digit_char((v % 10) as nat)]);
    assert(decimal(v) =~= decimal(v / 10) + decimal(v % 10));
}

/// Decimal text law, negative numbers: `-` followed by the text of the
/// absolute value.
pub proof fn lemma_decimal_negative(v: int)
    requires
        v < 0,
    ensures
        decimal(v) == seq!['-'] + decimal(-v),
{
}

/// Text law, empty: no values are written as `[]`.
pub proof fn lemma_bracketed_empty()
    ensures
        bracketed(Seq::empty()) == seq!['[', ']'],
{
    assert(listing(Seq::<i32>::empty(), true) == Seq::<char>::empty());
    assert(bracketed(Seq::empty()) =~= seq!['[', ']']);
}

/// Text law, one more value at the end: the text of `s` followed by `x` is
/// the text of `s` without its closing `]`, then `", "` (unless `s` is
/// empty), the decimal text of `x`, and `]`. With `lemma_bracketed_empty`
/// this fixes the text of every sequence: each value is written, in order,
/// however many there are.
pub proof fn lemma_bracketed_push(s: Seq<i32>, x: i32)
    ensures
        bracketed(s.push(x)) == bracketed(s).drop_last() + (if s.len() == 0 {
            Seq::<char>::empty()
        } else {
            seq![',', ' ']
        }) + decimal(x as int) + seq![']'],
{
    lemma_listing_append(s, seq![x], true);
    lemma_listing_one(x, s.len() == 0);
    assert(s + seq![x] =~= s.push(x));
    assert(bracketed(s).drop_last() =~= seq!['['] + listing(s, true));
    assert(bracketed(s.push(x)) =~= bracketed(s).drop_last() + (if s.len() == 0 {
            Seq::<char>::empty()
        } else {
            seq![',', ' ']
        }) + decimal(x as int) + seq![']']);
}

/// Text law, one more value at the front: the text of `x` followed by `s`
/// is `[`, the decimal text of `x`, `", "` (unless `s` is empty), then the
/// text of `s` without its opening `[`.
pub proof fn lemma_bracketed_prepend(x: i32, s: Seq<i32>)
    ensures
        bracketed(seq![x] + s) == seq!['['] + decimal(x as int) + (if s.len() == 0 {
            Seq::<char>::empty()
        } else {
            seq![',', ' ']
        }) + bracketed(s).drop_first(),
{
    let t = seq![x] + s;
    assert(t[0] == x);
    assert(t.drop_first() =~= s);
    assert(listing(t, true) == decimal(x as int) + listing(s, false));
    if s.len() > 0 {
        assert(listing(s, false) =~= seq![',', ' '] + listing(s, true));
    } else {
        assert(listing(s, false) == Seq::<char>::empty());
        assert(listing(s, true) == Seq::<char>::empty());
    }
    assert(bracketed(s).drop_first() =~= listing(s, true) + seq![']']);
    assert(bracketed(t) =~= seq!['['] + decimal(x as int) + (if s.len() == 0 {
            Seq::<char>::empty()
        } else {
            seq![',', ' ']
        }) + bracketed(s).drop_first());
}

/// Decimal text of `v`, as `i32`'s `ToString` writes it.
#[verifier::external_body]
pub(crate) fn decimal_text(v: i32) -> (s: String)
    ensures
        s@ == decimal(v as int),
{
    v.to_string()
}

/// Append `v` to `out` as the next entry of a listing: `", "` first unless
/// `*first` holds, then the decimal text of `v`; `*first` becomes false.
pub(crate) fn write_entry(out: &mut String, first: &mut bool, v: i32)
    ensures
        final(out)@ == old(out)@ + listing(seq![v], *old(first)),
        *final(first) == false,
{
    proof {
        lemma_listing_one(v, *first);
        reveal_strlit(", ");
    }
    if !*first {
        out.append(", ");
    }
    let text = decimal_text(v);
    out.append(text.as_str());
    *first = false;
    assert(final(out)@ =~= old(out)@ + listing(seq![v], *old(first)));
}

} // verus!
