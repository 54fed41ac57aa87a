use vstd::prelude::*;
use vstd::string::StringExecFns;

use crate::number_text::{decimal, lemma_decimal_is_digits, push_char};

verus! {

/// ASCII `+`.
pub const PLUS: u8 = 43;

/// Whether `b` is an ASCII decimal digit.
pub open spec fn is_digit(b: u8) -> bool {
    48 <= b <= 57
}

/// The number that a string of decimal digits denotes.
pub open spec fn digits_value(d: Seq<u8>) -> nat
    decreases d.len(),
{
    if d.len() == 0 {
        0
    } else {
        digits_value(d.drop_last()) * 10 + (d.last() - 48) as nat
    }
}

/// The digits of an unsigned number: the text without one leading `+`.
pub open spec fn unsigned_digits(text: Seq<u8>) -> Seq<u8> {
    if text.len() > 0 && text[0] == PLUS {
        text.drop_first()
    } else {
        text
    }
}

/// What parsing `text` as an unsigned integer no larger than `max` gives:
/// an optional `+`, then one or more decimal digits whose value is at most
/// `max`; anything else is refused.
pub open spec fn parse_unsigned(text: Seq<u8>, max: nat) -> Option<nat> {
    let d = unsigned_digits(text);
    if d.len() > 0 && (forall|i: int| 0 <= i < d.len() ==> #[trigger] is_digit(d[i]))
        && digits_value(d) <= max {
        Some(digits_value(d))
    } else {
        None
    }
}

proof fn lemma_digits_value_grows(d: Seq<u8>, k: int)
    requires
        0 <= k <= d.len(),
        forall|i: int| 0 <= i < d.len() ==> #[trigger] is_digit(d[i]),
    ensures
        digits_value(d.take(k)) <= digits_value(d),
    decreases d.len() - k,
{
    if k < d.len() {
        lemma_digits_value_grows(d, k + 1);
        assert(d.take(k + 1).drop_last() =~= d.take(k));
    } else {
        assert(d.take(k) =~= d);
    }
}

proof fn lemma_digits_value_of_decimal(n: nat)
    ensures
        digits_value(decimal(n)) == n,
    decreases n,
{
    let d = decimal(n);
    if n >= 10 {
        lemma_digits_value_of_decimal(n / 10);
        assert(d.drop_last() =~= decimal(n / 10));
        assert(d.last() == (48 + n % 10) as u8);
        assert((n / 10) * 10 + n % 10 == n);
    } else {
        let e: Seq<u8> = seq![];
        assert(d.drop_last() =~= e);
        assert(digits_value(e) == 0);
    }
}

/// Reading back the decimal digits of a number gives the number, as long as
/// it is within the bound.
pub proof fn lemma_parse_reads_decimal(n: nat, max: nat)
    requires
        n <= max,
    ensures
        parse_unsigned(decimal(n), max) == Some(n),
{
    lemma_decimal_is_digits(n);
    lemma_digits_value_of_decimal(n);
    let d = decimal(n);
    assert(d[0] != PLUS);
    assert(unsigned_digits(d) == d);
    assert forall|i: int| 0 <= i < d.len() implies #[trigger] is_digit(d[i]) by {
        assert(48 <= d[i] <= 57);
    }
}

/// Parses `text` as an unsigned decimal integer no larger than `max`, the
/// way `str::parse` does for unsigned integer types.
#[verifier::spinoff_prover]
#[verifier::rlimit(30)]
pub fn parse_unsigned_bytes(text: &[u8], max: u64) -> (value: Option<u64>)
    ensures
        value is Some <==> parse_unsigned(text@, max as nat) is Some,
        value is Some ==> value.unwrap() as nat == parse_unsigned(text@, max as nat).unwrap(),
{
    let len = text.len();
    let mut i: usize = 0;
    if len > 0 && text[0] == PLUS {
        i = 1;
    }
    let ghost d = unsigned_digits(text@);
    assert(d =~= text@.subrange(i as int, len as int));
    if i == len {
        return None;
    }
    let mut v: u64 = 0;
    let ghost start = i as int;
    while i < len
        invariant
            0 <= start <= i <= len,
            len == text@.len(),
            d == text@.subrange(start, len as int),
            d == unsigned_digits(text@),
            forall|j: int| 0 <= j < i - start ==> #[trigger] is_digit(d[j]),
            v as nat == digits_value(d.take(i - start)),
            v <= max,
        decreases len - i,
    {
        let b = text[i];
        assert(d.len() == len - start);
        assert(d[i - start] == text@[i as int]);
        assert(d[i - start] == b);
        if b < 48 || b > 57 {
            assert(!is_digit(d[i - start]));
            assert(!(forall|j: int| 0 <= j < d.len() ==> #[trigger] is_digit(d[j])));
            return None;
        }
        assert(d.take(i - start + 1).drop_last() =~= d.take(i - start));
        assert(d.take(i - start + 1).last() == b);
        let next: u128 = (v as u128) * 10 + (b - 48) as u128;
        i += 1;
        assert(next as nat == digits_value(d.take(i - start)));
        if next > max as u128 {
            proof {
                if forall|j: int| 0 <= j < d.len() ==> #[trigger] is_digit(d[j]) {
                    lemma_digits_value_grows(d, i - start);
                }
            }
            return None;
        }
        v = next as u64;
    }
    assert(d.take(i - start) =~= d);
    Some(v)
}

/// The UTF-8 bytes of a string.
pub open spec fn utf8(s: &String) -> Seq<u8> {
    vstd::utf8::encode_utf8(s@)
}

/// The options read from the arguments from index `i` on, starting from
/// `width`, `tolerance` and `output`: `--width N`, `--tolerance N` and
/// `--output FILE` set an option from the argument after the flag (a width
/// that does not parse clears it, a tolerance that does not parse is 0),
/// any other argument is skipped.
pub open spec fn scan_options(
    args: Seq<String>,
    i: int,
    width: Option<u32>,
    tolerance: u8,
    output: Option<Seq<char>>,
) -> (Option<u32>, u8, Option<Seq<char>>)
    decreases args.len() - i,
{
    if i < 0 || i >= args.len() {
        (width, tolerance, output)
    } else if args[i]@ == "--width"@ {
        if i + 1 < args.len() {
            let w = match parse_unsigned(utf8(&args[i + 1]), u32::MAX as nat) {
                Some(v) => Some(v as u32),
                None => None,
            };
            scan_options(args, i + 2, w, tolerance, output)
        } else {
            (width, tolerance, output)
        }
    } else if args[i]@ == "--tolerance"@ {
        if i + 1 < args.len() {
            let t = match parse_unsigned(utf8(&args[i + 1]), u8::MAX as nat) {
                Some(v) => v as u8,
                None => 0u8,
            };
            scan_options(args, i + 2, width, t, output)
        } else {
            (width, tolerance, output)
        }
    } else if args[i]@ == "--output"@ {
        if i + 1 < args.len() {
            scan_options(args, i + 2, width, tolerance, Some(args[i + 1]@))
        } else {
            (width, tolerance, output)
        }
    } else {
        scan_options(args, i + 1, width, tolerance, output)
    }
}

/// Whether `a` is one of the flags that take a value.
pub open spec fn is_option_flag(a: Seq<char>) -> bool {
    a == "--width"@ || a == "--tolerance"@ || a == "--output"@
}

proof fn lemma_scan_continues(
    a: Seq<String>,
    b: Seq<String>,
    i: int,
    width: Option<u32>,
    tolerance: u8,
    output: Option<Seq<char>>,
)
    requires
        0 <= i <= a.len(),
        a.len() >= 1,
        !is_option_flag(a.last()@),
    ensures
        ({
            let (w, t, o) = scan_options(a, i, width, tolerance, output);
            scan_options(a + b, i, width, tolerance, output) == scan_options(
                a + b,
                a.len() as int,
                w,
                t,
                o,
            )
        }),
    decreases a.len() - i,
{
    if i < a.len() {
        assert((a + b)[i] == a[i]);
        if i + 1 < a.len() {
            assert((a + b)[i + 1] == a[i + 1]);
            lemma_scan_continues(a, b, i + 2, width, tolerance, output);
        }
        if i + 1 == a.len() {
            assert(a[i] == a.last());
        }
        let w = match parse_unsigned(utf8(&a[i + 1]), u32::MAX as nat) {
            Some(v) => Some(v as u32),
            None => None,
        };
        let t = match parse_unsigned(utf8(&a[i + 1]), u8::MAX as nat) {
            Some(v) => v as u8,
            None => 0u8,
        };
        if i + 1 < a.len() {
            lemma_scan_continues(a, b, i + 2, w, tolerance, output);
            lemma_scan_continues(a, b, i + 2, width, t, output);
            lemma_scan_continues(a, b, i + 2, width, tolerance, Some(a[i + 1]@));
        }
        lemma_scan_continues(a, b, i + 1, width, tolerance, output);
    }
}

/// Options may come in any order and a later one wins: appending
/// `--width N`, `--tolerance N` or `--output FILE` to a command line that
/// does not end in a bare flag sets that option from its value and keeps
/// the other two as they were.
pub proof fn lemma_appended_option_wins(argv: Seq<String>, flag: String, value: String)
    requires
        argv.len() >= 2,
        !is_option_flag(argv.last()@),
        is_option_flag(flag@),
    ensures
        ({
            let (w, t, o) = scan_options(argv, 2, None, 0, None);
            let (w2, t2, o2) = scan_options(argv + seq![flag, value], 2, None, 0, None);
            &&& flag@ == "--width"@ ==> {
                &&& w2 == match parse_unsigned(utf8(&value), u32::MAX as nat) {
                    Some(v) => Some(v as u32),
                    None => None,
                }
                &&& t2 == t
                &&& o2 == o
            }
            &&& flag@ == "--tolerance"@ ==> {
                &&& t2 == match parse_unsigned(utf8(&value), u8::MAX as nat) {
                    Some(v) => v as u8,
                    None => 0u8,
                }
                &&& w2 == w
                &&& o2 == o
            }
            &&& flag@ == "--output"@ ==> {
                &&& o2 == Some(value@)
                &&& w2 == w
                &&& t2 == t
            }
        }),
{
    let tail = seq![flag, value];
    let all = argv + tail;
    lemma_scan_continues(argv, tail, 2, None, 0, None);
    let (w, t, o) = scan_options(argv, 2, None, 0, None);
    let n = argv.len() as int;
    assert(all[n] == flag);
    assert(all[n + 1] == value);
    reveal_strlit("--width");
    reveal_strlit("--tolerance");
    reveal_strlit("--output");
    assert(scan_options(all, n + 2, w, t, o) == (w, t, o));
    assert("--width"@.len() == 7);
    assert("--tolerance"@.len() == 11);
    assert("--output"@.len() == 8);
    assert(scan_options(all, n + 2, w, t, Some(value@)) == (w, t, Some(value@)));
    if flag@ == "--width"@ {
        let wv = match parse_unsigned(utf8(&value), u32::MAX as nat) {
            Some(v) => Some(v as u32),
            None => None,
        };
        assert(all[n]@ == "--width"@);
        assert(n + 1 < all.len());
        assert(all[n + 1] == value);
        assert(scan_options(all, n + 2, wv, t, o) == (wv, t, o));
        assert(scan_options(all, n, w, t, o) == scan_options(all, n + 2, wv, t, o));
        assert(flag@ != "--tolerance"@ && flag@ != "--output"@);
    } else if flag@ == "--tolerance"@ {
        let tv = match parse_unsigned(utf8(&value), u8::MAX as nat) {
            Some(v) => v as u8,
            None => 0u8,
        };
        assert(all[n]@ == "--tolerance"@);
        assert(all[n]@ != "--width"@);
        assert(n + 1 < all.len());
        assert(scan_options(all, n + 2, w, tv, o) == (w, tv, o));
        assert(scan_options(all, n, w, t, o) == scan_options(all, n + 2, w, tv, o));
        assert(scan_options(all, 2, None, 0, None) == (w, tv, o));
        assert(flag@ != "--width"@ && flag@ != "--output"@);
    } else {
        assert(all[n]@ == "--output"@);
        assert(all[n]@ != "--width"@);
        assert(all[n]@ != "--tolerance"@);
        assert(n + 1 < all.len());
        assert(scan_options(all, n, w, t, o) == scan_options(all, n + 2, w, t, Some(value@)));
        assert(scan_options(all, 2, None, 0, None) == (w, t, Some(value@)));
    }
}

/// The command line read: the input image, the width to scale to, the
/// tolerance, and the output file if one was named.
pub struct CliArgs {
    pub input: String,
    pub width: Option<u32>,
    pub tolerance: u8,
    pub output: Option<String>,
}

/// The view of an optional string.
pub open spec fn opt_chars(s: Option<String>) -> Option<Seq<char>> {
    match s {
        Some(t) => Some(t@),
        None => None,
    }
}

/// Reads the command line `argv` (program name first): the image is the
/// first argument, options follow. Nothing is read when no argument is given.
#[verifier::spinoff_prover]
#[verifier::rlimit(30)]
pub fn parse_args(argv: &Vec<String>) -> (parsed: Option<CliArgs>)
    ensures
        parsed is None <==> argv@.len() <= 1,
        parsed matches Some(a) ==> {
            &&& a.input@ == argv@[1]@
            &&& (a.width, a.tolerance, opt_chars(a.output)) == scan_options(
                argv@,
                2,
                None,
                0,
                None,
            )
        },
{
    if argv.len() <= 1 {
        return None;
    }
    let input = argv[1].clone();
    let width_flag = String::from_str("--width");
    let tolerance_flag = String::from_str("--tolerance");
    let output_flag = String::from_str("--output");
    let mut width: Option<u32> = None;
    let mut tolerance: u8 = 0;
    let mut output: Option<String> = None;
    let mut i: usize = 2;
    while i < argv.len()
        invariant
            2 <= i <= argv@.len(),
            width_flag@ == "--width"@,
            tolerance_flag@ == "--tolerance"@,
            output_flag@ == "--output"@,
            scan_options(argv@, 2, None, 0, None) == scan_options(
                argv@,
                i as int,
                width,
                tolerance,
                opt_chars(output),
            ),
        decreases argv@.len() - i,
    {
        let is_width = argv[i] == width_flag;
        let is_tolerance = argv[i] == tolerance_flag;
        let is_output = argv[i] == output_flag;
        if is_width || is_tolerance || is_output {
            if i + 1 < argv.len() {
                let value = &argv[i + 1];
                if is_width {
                    width = match parse_unsigned_bytes(value.as_str().as_bytes(), 0xffff_ffff) {
                        Some(v) => Some(v as u32),
                        None => None,
                    };
                } else if is_tolerance {
                    tolerance = match parse_unsigned_bytes(value.as_str().as_bytes(), 255) {
                        Some(v) => v as u8,
                        None => 0,
                    };
                } else {
                    output = Some(value.clone());
                }
                i += 2;
            } else {
                i = argv.len();
            }
        } else {
            i += 1;
        }
    }
    Some(CliArgs { input, width, tolerance, output })
}

/// The position of the last `.` in `s`, if any.
pub open spec fn last_dot(s: Seq<char>) -> Option<int>
    decreases s.len(),
{
    if s.len() == 0 {
        None
    } else if s.last() == '.' {
        Some(s.len() - 1)
    } else {
        last_dot(s.drop_last())
    }
}

proof fn lemma_last_dot(s: Seq<char>)
    ensures
        last_dot(s) matches Some(k) ==> 0 <= k < s.len() && s[k] == '.',
    decreases s.len(),
{
    if s.len() > 0 && s.last() != '.' {
        lemma_last_dot(s.drop_last());
    }
}

/// The name of the text file written for an image named `file_name`: the
/// name up to its last `.` (all of it when there is none), then `.txt`.
pub open spec fn output_name(file_name: Seq<char>) -> Seq<char> {
    let stem = match last_dot(file_name) {
        Some(k) => file_name.take(k),
        None => file_name,
    };
    stem + ".txt"@
}

/// Names the text file written for an image named `file_name`.
#[verifier::spinoff_prover]
#[verifier::rlimit(30)]
pub fn default_output_name(file_name: &str) -> (name: String)
    ensures
        name@ == output_name(file_name@),
{
    let mut chars: Vec<char> = Vec::new();
    let mut dot: Option<usize> = None;
    for c in it: file_name.chars()
        invariant
            it.seq() == file_name@,
            chars@ == it.seq().take(it.index()),
            dot is Some <==> last_dot(chars@) is Some,
            dot is Some ==> dot.unwrap() as int == last_dot(chars@).unwrap(),
    {
        assert(chars@.push(c).drop_last() =~= chars@);
        proof {
            lemma_last_dot(chars@);
        }
        if c == '.' {
            dot = Some(chars.len());
        }
        chars.push(c);
    }
    proof {
        lemma_last_dot(chars@);
    }
    assert(chars@ =~= file_name@);
    let end = match dot {
        Some(k) => k,
        None => chars.len(),
    };
    let mut name = String::new();
    let mut i: usize = 0;
    while i < end
        invariant
            i <= end <= chars@.len(),
            name@ == chars@.take(i as int),
        decreases end - i,
    {
        push_char(&mut name, chars[i]);
        i += 1;
        assert(name@ =~= chars@.take(i as int));
    }
    name.append(".txt");
    name
}

} // verus!
