//! Human-readable rendering of a duration measured in nanoseconds: the
//! value is printed in the coarsest unit that still shows at least one and
//! fewer than ten thousand whole units.

use vstd::prelude::*;

verus! {

/// The character of one decimal digit.
pub open spec fn digit_char(d: nat) -> char {
    if d == 0 {
        '0'
    } else if d == 1 {
        '1'
    } else if d == 2 {
        '2'
    } else if d == 3 {
        '3'
    } else if d == 4 {
        '4'
    } else if d == 5 {
        '5'
    } else if d == 6 {
        '6'
    } else if d == 7 {
        '7'
    } else if d == 8 {
        '8'
    } else {
        '9'
    }
}

/// The decimal digits of `n`, most significant first, without leading
/// zeros (a lone zero for zero).
pub open spec fn spec_digits(n: nat) -> Seq<char>
    decreases n,
{
    if n < 10 {
        seq![digit_char(n)]
    } else {
        spec_digits(n / 10).push(digit_char(n % 10))
    }
}

/// The text of a duration of `nanos` nanoseconds: whole nanoseconds below
/// ten thousand, else whole microseconds below ten thousand, else whole
/// milliseconds below ten thousand, else whole seconds.
pub open spec fn spec_duration_text(nanos: u64) -> Seq<char> {
    if nanos < 10000 {
        spec_digits(nanos as nat) + " ns"@
    } else if nanos / 1000 < 10000 {
        spec_digits((nanos / 1000) as nat) + " us"@
    } else if nanos / 1000000 < 10000 {
        spec_digits((nanos / 1000000) as nat) + " ms"@
    } else {
        spec_digits((nanos / 1000000000) as nat) + " s"@
    }
}

/// The characters of the digits `v[j..]` read back to front: `v` holds
/// digits least significant first.
spec fn rev_digits(v: Seq<u64>) -> Seq<char>
    decreases v.len(),
{
    if v.len() == 0 {
        Seq::empty()
    } else {
        seq![digit_char(v[v.len() - 1] as nat)] + rev_digits(v.drop_last())
    }
}

proof fn lemma_rev_digits_snoc(v: Seq<u64>)
    requires
        v.len() > 0,
    ensures
        rev_digits(v) == rev_digits(v.drop_first()) + seq![digit_char(v[0] as nat)],
    decreases v.len(),
{
    if v.len() == 1 {
        assert(v.drop_first() =~= Seq::<u64>::empty());
        assert(v.drop_last() =~= Seq::<u64>::empty());
        assert(rev_digits(Seq::<u64>::empty()) =~= Seq::<char>::empty());
        assert(rev_digits(v) =~= rev_digits(v.drop_first()) + seq![digit_char(v[0] as nat)]);
    } else {
        lemma_rev_digits_snoc(v.drop_last());
        assert(v.drop_last().drop_first() =~= v.drop_first().drop_last());
        assert(v.drop_first()[v.drop_first().len() - 1] == v[v.len() - 1]);
        assert(rev_digits(v) =~= rev_digits(v.drop_first()) + seq![digit_char(v[0] as nat)]);
    }
}

/// The one-character text of a decimal digit.
fn digit_str(d: u64) -> (r: &'static str)
    requires
        d < 10,
    ensures
        r@ == seq![digit_char(d as nat)],
{
    proof {
        reveal_strlit("0");
        reveal_strlit("1");
        reveal_strlit("2");
        reveal_strlit("3");
        reveal_strlit("4");
        reveal_strlit("5");
        reveal_strlit("6");
        reveal_strlit("7");
        reveal_strlit("8");
        reveal_strlit("9");
    }
    let r = if d == 0 {
        "0"
    } else if d == 1 {
        "1"
    } else if d == 2 {
        "2"
    } else if d == 3 {
        "3"
    } else if d == 4 {
        "4"
    } else if d == 5 {
        "5"
    } else if d == 6 {
        "6"
    } else if d == 7 {
        "7"
    } else if d == 8 {
        "8"
    } else {
        "9"
    };
    proof {
        assert(r@ =~= seq![digit_char(d as nat)]);
    }
    r
}

/// The decimal text of `n`, most significant digit first.
#[verifier::loop_isolation(false)]
pub fn u64_to_string(n: u64) -> (r: String)
    ensures
        r@ == spec_digits(n as nat),
{
    let mut digits: Vec<u64> = Vec::new();
    let mut cur: u64 = n;
    while cur >= 10
        invariant
            spec_digits(n as nat) == spec_digits(cur as nat) + rev_digits(digits@),
            forall|i: int| 0 <= i < digits@.len() ==> (#[trigger] digits@[i]) < 10,
        decreases cur,
    {
        let d = cur % 10;
        proof {
            assert(rev_digits(digits@.push(d)) == seq![digit_char(d as nat)] + rev_digits(
                digits@,
            )) by {
                assert(digits@.push(d).drop_last() =~= digits@);
            }
            assert(spec_digits(cur as nat) + rev_digits(digits@) =~= spec_digits(
                (cur / 10) as nat,
            ) + rev_digits(digits@.push(d)));
        }
        digits.push(d);
        cur = cur / 10;
    }
    let d = cur;
    proof {
        assert(rev_digits(digits@.push(d)) == seq![digit_char(d as nat)] + rev_digits(digits@))
            by {
            assert(digits@.push(d).drop_last() =~= digits@);
        }
        assert(spec_digits(n as nat) =~= rev_digits(digits@.push(d)));
    }
    digits.push(d);
    let ghost all = digits@;
    let mut out = String::new();
    let mut j: usize = digits.len();
    while j > 0
        invariant
            j <= digits@.len(),
            digits@ == all,
            forall|i: int| 0 <= i < digits@.len() ==> (#[trigger] digits@[i]) < 10,
            out@ == rev_digits(all.subrange(j as int, all.len() as int)),
        decreases j,
    {
        j = j - 1;
        proof {
            let tail = all.subrange(j as int, all.len() as int);
            lemma_rev_digits_snoc(tail);
            assert(tail.drop_first() =~= all.subrange(j as int + 1, all.len() as int));
            assert(tail[0] == all[j as int]);
        }
        out.append(digit_str(digits[j]));
    }
    proof {
        assert(all.subrange(0, all.len() as int) =~= all);
    }
    out
}

/// A duration in nanoseconds, rendered as text in a unit a human can
/// read at a glance.
pub struct HumanReadableDuration(pub u64);

impl HumanReadableDuration {
    /// The duration's text, as [`spec_duration_text`] prescribes.
    pub fn to_text(&self) -> (r: String)
        ensures
            r@ == spec_duration_text(self.0),
    {
        let nanos = self.0;
        if nanos < 10000 {
            let mut s = u64_to_string(nanos);
            s.append(" ns");
            s
        } else if nanos / 1000 < 10000 {
            let mut s = u64_to_string(nanos / 1000);
            s.append(" us");
            s
        } else if nanos / 1000000 < 10000 {
            let mut s = u64_to_string(nanos / 1000000);
            s.append(" ms");
            s
        } else {
            let mut s = u64_to_string(nanos / 1000000000);
            s.append(" s");
            s
        }
    }
}

} // verus!
