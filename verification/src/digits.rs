use vstd::prelude::*;

verus! {

/// Decimal digits: the characters '0' through '9'.
pub open spec fn is_digit_char(c: char) -> bool {
    48 <= c as u32 && c as u32 <= 57
}

/// The numeric value of one decimal digit character.
pub open spec fn digit_val(c: char) -> nat {
    (c as u32 - 48) as nat
}

/// The digit character for a value below ten.
pub open spec fn digit_char(d: nat) -> char {
    if d == 0 { '0' }
    else if d == 1 { '1' }
    else if d == 2 { '2' }
    else if d == 3 { '3' }
    else if d == 4 { '4' }
    else if d == 5 { '5' }
    else if d == 6 { '6' }
    else if d == 7 { '7' }
    else if d == 8 { '8' }
    else { '9' }
}

/// True when every character of `s` is a decimal digit.
pub open spec fn all_digits(s: Seq<char>) -> bool {
    forall|i: int| 0 <= i < s.len() ==> is_digit_char(#[trigger] s[i])
}

/// The number written by a digit string, most significant digit first.
pub open spec fn digits_to_nat(s: Seq<char>) -> nat
    decreases s.len(),
{
    if s.len() == 0 {
        0
    } else {
        digits_to_nat(s.drop_last()) * 10 + digit_val(s.last())
    }
}

/// The canonical decimal digit string of a number: no leading zeros,
/// a single '0' for zero.
pub open spec fn nat_to_digits(n: nat) -> Seq<char>
    decreases n,
{
    if n < 10 {
        seq![digit_char(n)]
    } else {
        nat_to_digits(n / 10).push(digit_char(n % 10))
    }
}

/// A digit string is canonical when it is non-empty and has no leading zero
/// (except the single digit zero itself).
pub open spec fn canonical_digits(s: Seq<char>) -> bool {
    &&& s.len() > 0
    &&& all_digits(s)
    &&& (s.len() > 1 ==> s[0] != '0')
}

/// `digit_char` and `digit_val` are mutually inverse on digit characters.
pub proof fn lemma_digit_char_val(c: char)
    requires
        is_digit_char(c),
    ensures
        digit_char(digit_val(c)) == c,
        digit_val(c) < 10,
{
}

pub proof fn lemma_nat_to_digits_wf(n: nat)
    ensures
        canonical_digits(nat_to_digits(n)),
        digits_to_nat(nat_to_digits(n)) == n,
    decreases n,
{
    if n < 10 {
        let s = nat_to_digits(n);
        assert(s =~= seq![digit_char(n)]);
        assert(s.last() == digit_char(n));
        assert(s.drop_last() =~= Seq::<char>::empty());
        assert(digits_to_nat(s.drop_last()) == 0);
        assert(digits_to_nat(s) == digit_val(s.last()));
        assert(digit_val(digit_char(n)) == n);
        assert(is_digit_char(digit_char(n)));
    } else {
        lemma_nat_to_digits_wf(n / 10);
        let p = nat_to_digits(n / 10);
        let s = nat_to_digits(n);
        assert(s == p.push(digit_char(n % 10)));
        assert(s.drop_last() =~= p);
        assert(s.last() == digit_char(n % 10));
        assert(digit_val(digit_char(n % 10)) == n % 10);
        assert(digits_to_nat(s) == digits_to_nat(p) * 10 + n % 10);
        assert(digits_to_nat(p) == n / 10);
        assert(n / 10 * 10 + n % 10 == n) by (nonlinear_arith);
        assert(n / 10 >= 1);
        // the leading digit of `s` is the leading digit of `p`, which is not '0'
        assert(s[0] == p[0]);
        if p.len() == 1 {
            assert(p.drop_last() =~= Seq::<char>::empty());
            assert(digits_to_nat(p) == digit_val(p[0])) by {
                assert(p.last() == p[0]);
                assert(digits_to_nat(p.drop_last()) == 0);
            }
            assert(digit_val(p[0]) >= 1);
            assert(p[0] != '0');
        }
        assert(forall|i: int| 0 <= i < s.len() ==> is_digit_char(#[trigger] s[i])) by {
            assert(forall|i: int| 0 <= i < p.len() ==> s[i] == #[trigger] p[i]);
            assert(is_digit_char(digit_char(n % 10)));
        }
    }
}

/// Appending a digit multiplies the value by ten and adds the digit.
pub proof fn lemma_digits_push(s: Seq<char>, c: char)
    ensures
        digits_to_nat(s.push(c)) == digits_to_nat(s) * 10 + digit_val(c),
{
    assert(s.push(c).drop_last() =~= s);
    assert(s.push(c).last() == c);
}

/// A canonical digit string is determined by its value.
pub proof fn lemma_canonical_unique(s: Seq<char>)
    requires
        canonical_digits(s),
    ensures
        nat_to_digits(digits_to_nat(s)) =~= s,
    decreases s.len(),
{
    let n = digits_to_nat(s);
    if s.len() == 1 {
        assert(s.drop_last() =~= Seq::<char>::empty());
        assert(digits_to_nat(s.drop_last()) == 0);
        assert(s.last() == s[0]);
        assert(n == digit_val(s[0]));
        assert(is_digit_char(s[0]));
        lemma_digit_char_val(s[0]);
        assert(n < 10);
        assert(digit_char(n) == s[0]);
        assert(nat_to_digits(n) =~= seq![s[0]]);
    } else {
        let p = s.drop_last();
        assert(canonical_digits(p)) by {
            assert(forall|i: int| 0 <= i < p.len() ==> p[i] == #[trigger] s[i]);
        }
        lemma_canonical_unique(p);
        let m = digits_to_nat(p);
        assert(n == m * 10 + digit_val(s.last()));
        assert(m >= 1) by {
            if m == 0 {
                lemma_canonical_zero(p);
            }
        }
        assert(s.last() == s[s.len() - 1]);
        assert(is_digit_char(s[s.len() - 1]));
        assert(digit_val(s.last()) < 10);
        assert(n / 10 == m && n % 10 == digit_val(s.last())) by (nonlinear_arith)
            requires
                n == m * 10 + digit_val(s.last()),
                digit_val(s.last()) < 10,
        ;
        assert(n >= 10) by (nonlinear_arith)
            requires
                n == m * 10 + digit_val(s.last()),
                m >= 1,
        ;
        assert(is_digit_char(s.last()));
        lemma_digit_char_val(s.last());
        assert(digit_char(digit_val(s.last())) == s.last());
        assert(nat_to_digits(n) == nat_to_digits(m).push(s.last()));
        assert(nat_to_digits(n) =~= p.push(s.last()));
        assert(p.push(s.last()) =~= s);
    }
}

/// A canonical digit string with value zero is the single digit '0'.
proof fn lemma_canonical_zero(s: Seq<char>)
    requires
        canonical_digits(s),
        digits_to_nat(s) == 0,
    ensures
        s =~= seq!['0'],
    decreases s.len(),
{
    if s.len() == 1 {
        assert(s.drop_last() =~= Seq::<char>::empty());
        assert(digits_to_nat(s.drop_last()) == 0);
        assert(s.last() == s[0]);
        assert(digit_val(s[0]) == 0);
        assert(is_digit_char(s[0]));
        lemma_digit_char_val(s[0]);
        assert(s[0] == '0');
        assert(s =~= seq!['0']);
    } else {
        let p = s.drop_last();
        assert(digits_to_nat(p) * 10 + digit_val(s.last()) == 0);
        assert(digits_to_nat(p) == 0);
        assert(canonical_digits(p)) by {
            assert(forall|i: int| 0 <= i < p.len() ==> p[i] == #[trigger] s[i]);
        }
        lemma_canonical_zero(p);
        assert(p[0] == '0');
        assert(s[0] == p[0]);
        assert(false);
    }
}

/// The value of a digit string grows monotonically as digits are appended.
pub proof fn lemma_digits_prefix_le(s: Seq<char>, i: int)
    requires
        0 <= i <= s.len(),
    ensures
        digits_to_nat(s.take(i)) <= digits_to_nat(s),
    decreases s.len() - i,
{
    if i == s.len() {
        assert(s.take(i) =~= s);
    } else {
        lemma_digits_prefix_le(s, i + 1);
        assert(s.take(i + 1) =~= s.take(i).push(s[i]));
        lemma_digits_push(s.take(i), s[i]);
        assert(digits_to_nat(s.take(i)) * 10 >= digits_to_nat(s.take(i))) by (nonlinear_arith);
    }
}

/// One decimal digit, as a string slice.
fn digit_str(d: u64) -> (r: &'static str)
    requires
        d < 10,
    ensures
        r@ =~= seq![digit_char(d as nat)],
{
    proof {
        reveal_strlit("0");
        reveal_strlit("1");
        reveal_strlit("2");
        reveal_strlit("3");
        reveal_strlit("4");
        reveal_strlit("5");
        reveal_strlit("6");
        reveal_strlit("7");
        reveal_strlit("8");
        reveal_strlit("9");
    }
    match d {
        0 => "0",
        1 => "1",
        2 => "2",
        3 => "3",
        4 => "4",
        5 => "5",
        6 => "6",
        7 => "7",
        8 => "8",
        _ => "9",
    }
}

/// Renders a number as its canonical decimal digit string.
pub fn u64_to_string(n: u64) -> (r: String)
    ensures
        r@ == nat_to_digits(n as nat),
    decreases n,
{
    if n < 10 {
        let r = String::from_str(digit_str(n));
        proof {
            assert(r@ =~= nat_to_digits(n as nat));
        }
        r
    } else {
        let mut r = u64_to_string(n / 10);
        r.append(digit_str(n % 10));
        proof {
            assert(r@ =~= nat_to_digits(n as nat));
        }
        r
    }
}

/// Parses a digit string as a number. Returns the value exactly when the
/// string is non-empty, all digits, and the value fits in a `u64`;
/// leading zeros are accepted.
pub fn parse_u64(s: &str) -> (r: Option<u64>)
    ensures
        match r {
            Some(v) => s@.len() > 0 && all_digits(s@) && digits_to_nat(s@) == v,
            None => s@.len() == 0 || !all_digits(s@) || digits_to_nat(s@) > u64::MAX,
        },
{
    let n = s.unicode_len();
    if n == 0 {
        return None;
    }
    let mut acc: u64 = 0;
    let mut i: usize = 0;
    while i < n
        invariant
            0 <= i <= n,
            n == s@.len(),
            all_digits(s@.take(i as int)),
            acc == digits_to_nat(s@.take(i as int)),
        decreases n - i,
    {
        let c = s.get_char(i);
        let cv = c as u32;
        if cv < 48 || cv > 57 {
            proof {
                assert(!is_digit_char(s@[i as int]));
            }
            return None;
        }
        let d: u64 = (cv - 48) as u64;
        proof {
            assert(s@.take(i + 1) =~= s@.take(i as int).push(s@[i as int]));
            lemma_digits_push(s@.take(i as int), s@[i as int]);
        }
        if acc > (u64::MAX - d) / 10 {
            proof {
                assert(digits_to_nat(s@.take(i + 1)) == acc * 10 + d);
                assert(acc * 10 + d > u64::MAX) by (nonlinear_arith)
                    requires
                        acc > (u64::MAX - d) / 10,
                        d < 10,
                ;
                lemma_digits_prefix_le(s@, i + 1);
            }
            return None;
        }
        proof {
            assert(acc * 10 + d <= u64::MAX) by (nonlinear_arith)
                requires
                    acc <= (u64::MAX - d) / 10,
                    d < 10,
            ;
        }
        acc = acc * 10 + d;
        i = i + 1;
    }
    proof {
        assert(s@.take(n as int) =~= s@);
    }
    Some(acc)
}

} // verus!
