use vstd::prelude::*;

verus! {

/// Two to the power `e`.
pub open spec fn two_pow(e: nat) -> nat
    decreases e,
{
    if e == 0 {
        1
    } else {
        2 * two_pow((e - 1) as nat)
    }
}

/// The unsigned integer that a bit sequence stands for, most significant
/// bit first.
pub open spec fn bits_value(s: Seq<bool>) -> nat
    decreases s.len(),
{
    if s.len() == 0 {
        0
    } else {
        (if s[0] {
            two_pow((s.len() - 1) as nat)
        } else {
            0
        }) + bits_value(s.drop_first())
    }
}

/// Adds two unsigned integers of equal width, given as bits with the most
/// significant first. The sum has one bit more than the operands, which
/// holds the final carry.
pub fn add_two_binary_integers(a: &[bool], b: &[bool]) -> (r: Vec<bool>)
    requires
        a@.len() == b@.len(),
    ensures
        r@.len() == a@.len() + 1,
        bits_value(r@) == bits_value(a@) + bits_value(b@),
{
    let n = a.len();
    let mut r: Vec<bool> = Vec::new();
    r.push(false);
    let mut p: usize = 0;
    while p < n
        invariant
            p <= n,
            r@.len() == p + 1,
        decreases n - p,
    {
        r.push(false);
        p += 1;
    }
    let mut carry = false;
    let mut i: usize = n;
    while i > 0
        invariant
            i <= n,
            n == a@.len(),
            n == b@.len(),
            r@.len() == n + 1,
            bits_value(a@.subrange(i as int, n as int)) + bits_value(b@.subrange(i as int, n as int))
                == (if carry {
                two_pow((n - i) as nat)
            } else {
                0
            }) + bits_value(r@.subrange(i + 1, n + 1)),
        decreases i,
    {
        let ghost pre = r@;
        let ghost c0 = carry;
        i -= 1;
        let x = a[i];
        let y = b[i];
        let sum = (x && !y && !carry) || (y && !x && !carry) || (carry && !x && !y) || (x && y
            && carry);
        carry = (x && (y || carry)) || (y && carry);
        r.set(i + 1, sum);
        proof {
            let w = two_pow((n - i - 1) as nat);
            assert(two_pow((n - i) as nat) == 2 * w);
            assert(a@.subrange(i as int, n as int).drop_first() =~= a@.subrange(i + 1, n as int));
            assert(b@.subrange(i as int, n as int).drop_first() =~= b@.subrange(i + 1, n as int));
            assert(r@.subrange(i + 1, n + 1).drop_first() =~= pre.subrange(i + 2, n + 1));
            assert(bits_value(r@.subrange(i + 1, n + 1)) == (if sum {
                w
            } else {
                0
            }) + bits_value(pre.subrange(i + 2, n + 1)));
        }
    }
    let ghost pre = r@;
    r.set(0, carry);
    proof {
        assert(a@.subrange(0, n as int) =~= a@);
        assert(b@.subrange(0, n as int) =~= b@);
        assert(r@.drop_first() =~= pre.subrange(1, n + 1));
    }
    r
}

} // verus!
