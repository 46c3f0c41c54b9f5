//! Decimal to binary conversion, as the language-comparison demo prints it.
use vstd::prelude::*;
use vstd::arithmetic::power2::{pow2, lemma_pow2_unfold, lemma_pow2_pos, lemma2_to64};

verus! {

/// The value of a sequence of bits written most significant first:
/// the sum of `bits[i] * 2^(len - 1 - i)`.
pub open spec fn bits_value(bits: Seq<i32>) -> int
    decreases bits.len(),
{
    if bits.len() == 0 {
        0
    } else {
        bits[0] * pow2((bits.len() - 1) as nat) + bits_value(bits.drop_first())
    }
}

/// Every entry is a binary digit.
pub open spec fn all_bits(bits: Seq<i32>) -> bool {
    forall|i: int| 0 <= i < bits.len() ==> (#[trigger] bits[i] == 0 || bits[i] == 1)
}

/// `bits` is the binary representation of `n` without leading zeros.
pub open spec fn is_binary_of(bits: Seq<i32>, n: int) -> bool {
    &&& all_bits(bits)
    &&& bits.len() > 0
    &&& bits[0] == 1
    &&& bits_value(bits) == n
}

/// What the demo writes after `Binary: ` for one number.
pub enum BinaryForm {
    /// The number was zero: the demo writes `0` and an extra blank line.
    Zero,
    /// The digits, most significant first (none for a negative number).
    Bits(Vec<i32>),
}

/// Converts `decimal` the way the demo does: zero is reported on its own,
/// a positive number yields its binary digits most significant first, and a
/// negative number yields no digits (the halving loop never runs).
pub fn decimal_binary(decimal: i32) -> (form: BinaryForm)
    ensures
        decimal == 0 <==> form is Zero,
        decimal < 0 ==> (form matches BinaryForm::Bits(b) && b@.len() == 0),
        decimal > 0 ==> (form matches BinaryForm::Bits(b) && is_binary_of(b@, decimal as int)),
{
    if decimal == 0 {
        return BinaryForm::Zero;
    }
    let mut binary: Vec<i32> = Vec::new();
    let mut rest: i32 = decimal;
    let ghost mut scale: int = 1;
    proof {
        lemma2_to64();
    }
    while rest > 0
        invariant
            decimal != 0,
            decimal > 0 ==> rest >= 0,
            decimal < 0 ==> rest == decimal && binary@.len() == 0,
            scale == pow2(binary@.len()),
            all_bits(binary@),
            decimal > 0 ==> decimal == rest * scale + bits_value(binary@),
            decimal > 0 && rest == 0 ==> binary@.len() > 0 && binary@[0] == 1,
        decreases rest,
    {
        let bit: i32 = rest % 2;
        let next: i32 = rest / 2;
        let ghost old_bits = binary@;
        binary.insert(0, bit);
        proof {
            assert(binary@.drop_first() =~= old_bits);
            lemma_pow2_unfold(binary@.len());
            lemma_pow2_pos(old_bits.len());
            assert(rest == 2 * next + bit);
            assert(rest * scale == next * (2 * scale) + bit * scale) by (nonlinear_arith)
                requires
                    rest == 2 * next + bit,
            ;
            scale = 2 * scale;
        }
        rest = next;
    }
    BinaryForm::Bits(binary)
}

/// The binary digits of a positive number are unique: two representations
/// without leading zeros of the same number are the same sequence.
pub proof fn binary_representation_unique(a: Seq<i32>, b: Seq<i32>, n: int)
    requires
        is_binary_of(a, n),
        is_binary_of(b, n),
    ensures
        a == b,
{
    lemma_bits_value_bounds(a);
    lemma_bits_value_bounds(b);
    if a.len() != b.len() {
        // the leading one of the longer sequence outweighs the whole shorter one
        if a.len() < b.len() {
            lemma_pow2_monotone(a.len(), (b.len() - 1) as nat);
        } else {
            lemma_pow2_monotone(b.len(), (a.len() - 1) as nat);
        }
        assert(false);
    }
    lemma_same_length_same_value(a, b);
}

/// `pow2` is monotone.
proof fn lemma_pow2_monotone(e1: nat, e2: nat)
    requires
        e1 <= e2,
    ensures
        pow2(e1) <= pow2(e2),
    decreases e2 - e1,
{
    if e1 < e2 {
        lemma_pow2_monotone(e1, (e2 - 1) as nat);
        lemma_pow2_unfold(e2);
        lemma_pow2_pos((e2 - 1) as nat);
    }
}

/// A sequence of `k` bits has a value in `0..2^k`, and at least
/// `2^(k-1)` when it starts with a one.
proof fn lemma_bits_value_bounds(bits: Seq<i32>)
    requires
        all_bits(bits),
    ensures
        0 <= bits_value(bits) < pow2(bits.len()),
        bits.len() > 0 && bits[0] == 1 ==> bits_value(bits) >= pow2((bits.len() - 1) as nat),
    decreases bits.len(),
{
    if bits.len() > 0 {
        let tail = bits.drop_first();
        assert(all_bits(tail)) by {
            assert forall|i: int| 0 <= i < tail.len() implies (#[trigger] tail[i] == 0 || tail[i] == 1) by {
                assert(tail[i] == bits[i + 1]);
            }
        }
        lemma_bits_value_bounds(tail);
        lemma_pow2_unfold(bits.len());
        lemma_pow2_pos(tail.len());
        if bits[0] == 0 {
            assert(bits_value(bits) == bits_value(tail));
        } else {
            assert(bits[0] == 1);
            assert(bits_value(bits) == pow2(tail.len()) + bits_value(tail));
        }
    } else {
        lemma2_to64();
    }
}

/// Two bit sequences of one length with one value are equal.
proof fn lemma_same_length_same_value(a: Seq<i32>, b: Seq<i32>)
    requires
        all_bits(a),
        all_bits(b),
        a.len() == b.len(),
        bits_value(a) == bits_value(b),
    ensures
        a == b,
    decreases a.len(),
{
    if a.len() > 0 {
        let ta = a.drop_first();
        let tb = b.drop_first();
        assert(all_bits(ta)) by {
            assert forall|i: int| 0 <= i < ta.len() implies (#[trigger] ta[i] == 0 || ta[i] == 1) by {
                assert(ta[i] == a[i + 1]);
            }
        }
        assert(all_bits(tb)) by {
            assert forall|i: int| 0 <= i < tb.len() implies (#[trigger] tb[i] == 0 || tb[i] == 1) by {
                assert(tb[i] == b[i + 1]);
            }
        }
        lemma_bits_value_bounds(ta);
        lemma_bits_value_bounds(tb);
        assert(a[0] == 0 || a[0] == 1);
        assert(b[0] == 0 || b[0] == 1);
        if a[0] != b[0] {
            assert(false);
        }
        lemma_same_length_same_value(ta, tb);
        assert(a =~= seq![a[0]] + ta);
        assert(b =~= seq![b[0]] + tb);
    }
}

/// Reading digits most significant first: appending a digit doubles the
/// value and adds the digit, and no digits have value 0.
pub proof fn bits_value_appends_digit(bits: Seq<i32>, digit: i32)
    ensures
        bits_value(bits.push(digit)) == 2 * bits_value(bits) + digit,
        bits_value(Seq::<i32>::empty()) == 0,
    decreases bits.len(),
{
    let longer = bits.push(digit);
    if bits.len() == 0 {
        lemma2_to64();
        assert(longer.drop_first() =~= Seq::<i32>::empty());
        assert(longer.len() == 1 && longer[0] == digit);
        assert(bits_value(longer) == digit * pow2(0) + bits_value(Seq::<i32>::empty()));
    } else {
        assert(longer.drop_first() =~= bits.drop_first().push(digit));
        bits_value_appends_digit(bits.drop_first(), digit);
        lemma_pow2_unfold(bits.len());
        let w = pow2((bits.len() - 1) as nat) as int;
        assert(longer[0] == bits[0]);
        assert(bits[0] * (2 * w) == 2 * (bits[0] * w)) by (nonlinear_arith);
        assert(bits_value(longer) == longer[0] * pow2((longer.len() - 1) as nat) + bits_value(longer.drop_first()));
        assert(bits_value(bits) == bits[0] * w + bits_value(bits.drop_first()));
        assert(pow2((longer.len() - 1) as nat) == 2 * w);
    }
}

} // verus!
