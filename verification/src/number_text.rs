use vstd::prelude::*;

verus! {

/// The decimal digits of `n`, most significant first, without leading zeros.
pub open spec fn decimal(n: nat) -> Seq<u8>
    decreases n,
{
    if n < 10 {
        seq![(48 + n) as u8]
    } else {
        decimal(n / 10).push((48 + n % 10) as u8)
    }
}

/// `itoa::Buffer::format`: the decimal digits of `n`.
#[verifier::external_body]
pub(crate) fn decimal_bytes(n: usize) -> (digits: Vec<u8>)
    ensures
        digits@ == decimal(n as nat),
{
    itoa::Buffer::new().format(n).as_bytes().to_vec()
}

/// The decimal digits of `n`, as `to_string` gives them.
pub fn decimal_digits(n: u64) -> (digits: Vec<u8>)
    ensures
        digits@ == decimal(n as nat),
    decreases n,
{
    if n < 10 {
        vec![48 + n as u8]
    } else {
        let mut digits = decimal_digits(n / 10);
        digits.push(48 + (n % 10) as u8);
        digits
    }
}


/// `String::push`: appends `c`.
#[verifier::external_body]
pub(crate) fn push_char(s: &mut String, c: char)
    ensures
        final(s)@ == old(s)@.push(c),
{
    s.push(c);
}

/// The characters written for digit `i` of `digits`: the digit, preceded by
/// a comma when a positive multiple of three digits follows it.
pub open spec fn grouped_digit(digits: Seq<u8>, i: int) -> Seq<char> {
    if i > 0 && (digits.len() - i) % 3 == 0 {
        seq![',', digits[i] as char]
    } else {
        seq![digits[i] as char]
    }
}

/// The first `k` digits of `digits`, with the separating commas among them.
pub open spec fn grouped_prefix(digits: Seq<u8>, k: int) -> Seq<char>
    decreases k,
{
    if k <= 0 {
        seq![]
    } else {
        grouped_prefix(digits, k - 1) + grouped_digit(digits, k - 1)
    }
}

/// `n` in decimal with a comma between groups of three digits, counted from
/// the right.
pub open spec fn with_thousands(n: nat) -> Seq<char> {
    grouped_prefix(decimal(n), decimal(n).len() as int)
}

/// Writes `n` in decimal with commas between groups of three digits, as in
/// `1,234,567`.
pub fn format_with_thousands(n: u64) -> (out: String)
    ensures
        out@ == with_thousands(n as nat),
{
    let digits = decimal_digits(n);
    let len = digits.len();
    let mut out = String::new();
    let mut i: usize = 0;
    while i < len
        invariant
            len == digits@.len(),
            digits@ == decimal(n as nat),
            i <= len,
            out@ == grouped_prefix(digits@, i as int),
        decreases len - i,
    {
        if i > 0 && (len - i) % 3 == 0 {
            push_char(&mut out, ',');
        }
        push_char(&mut out, digits[i] as char);
        i += 1;
        assert(out@ =~= grouped_prefix(digits@, i as int));
    }
    out
}

/// The characters of `s` other than commas.
pub open spec fn without_commas(s: Seq<char>) -> Seq<char>
    decreases s.len(),
{
    if s.len() == 0 {
        seq![]
    } else {
        without_commas(s.drop_last()) + if s.last() == ',' {
            seq![]
        } else {
            seq![s.last()]
        }
    }
}

proof fn lemma_without_commas_concat(a: Seq<char>, b: Seq<char>)
    ensures
        without_commas(a + b) == without_commas(a) + without_commas(b),
    decreases b.len(),
{
    if b.len() == 0 {
        assert(a + b =~= a);
        assert(without_commas(a) + without_commas(b) =~= without_commas(a));
    } else {
        lemma_without_commas_concat(a, b.drop_last());
        assert((a + b).drop_last() =~= a + b.drop_last());
        assert((a + b).last() == b.last());
        assert(without_commas(a + b) =~= without_commas(a) + without_commas(b));
    }
}

/// Every character of the decimal digits of a number is a digit.
pub proof fn lemma_decimal_is_digits(n: nat)
    ensures
        decimal(n).len() >= 1,
        forall|i: int| 0 <= i < decimal(n).len() ==> 48 <= #[trigger] decimal(n)[i] <= 57,
    decreases n,
{
    if n >= 10 {
        lemma_decimal_is_digits(n / 10);
    }
}

#[verifier::spinoff_prover]
#[verifier::rlimit(30)]
proof fn lemma_grouped_prefix_digits(digits: Seq<u8>, k: int)
    requires
        0 <= k <= digits.len(),
        forall|i: int| 0 <= i < digits.len() ==> 48 <= #[trigger] digits[i] <= 57,
    ensures
        without_commas(grouped_prefix(digits, k)) == digits.take(k).map_values(|d: u8| d as char),
    decreases k,
{
    if k == 0 {
        assert(digits.take(0).map_values(|d: u8| d as char) =~= seq![]);
    } else {
        lemma_grouped_prefix_digits(digits, k - 1);
        lemma_without_commas_concat(grouped_prefix(digits, k - 1), grouped_digit(digits, k - 1));
        let c = digits[k - 1] as char;
        assert(c != ',') by {
            assert(48 <= digits[k - 1] <= 57);
        }
        let e: Seq<char> = seq![];
        assert(without_commas(e) == e);
        assert(seq![c].drop_last() =~= e);
        assert(without_commas(seq![c]) == without_commas(e) + seq![c]);
        assert(without_commas(seq![c]) =~= seq![c]);
        if k - 1 > 0 && (digits.len() - (k - 1)) % 3 == 0 {
            assert(seq![',', c].drop_last() =~= seq![',']);
            assert(seq![','].drop_last() =~= e);
            assert(without_commas(seq![',']) == without_commas(e) + e);
            assert(without_commas(seq![',', c]) == without_commas(seq![',']) + seq![c]);
            assert(without_commas(seq![',', c]) =~= seq![c]);
        }
        assert(digits.take(k).map_values(|d: u8| d as char) =~= digits.take(k - 1).map_values(
            |d: u8| d as char,
        ).push(c));
    }
}

/// Dropping the commas from `format_with_thousands(n)` leaves the decimal
/// digits of `n`.
pub proof fn lemma_thousands_without_commas(n: nat)
    ensures
        without_commas(with_thousands(n)) == decimal(n).map_values(|d: u8| d as char),
{
    lemma_decimal_is_digits(n);
    lemma_grouped_prefix_digits(decimal(n), decimal(n).len() as int);
    assert(decimal(n).take(decimal(n).len() as int) =~= decimal(n));
}

} // verus!
