//! Names for the files of a writer that was given none.
//!
//! A generated name is `<prefix>/part-<token>_<bucket>.parquet`, where the
//! token is sixteen random letters and digits and the bucket is the hash
//! bucket id in decimal, padded with zeros to four digits.

use rand::distr::Alphanumeric;
use rand::distr::SampleString;
use vstd::prelude::*;
use vstd::string::StringExecFns;

verus! {

/// The number of characters of a token.
pub const TOKEN_LEN: usize = 16;

/// The width to which the bucket id is padded.
pub const BUCKET_WIDTH: usize = 4;

/// The character of a decimal digit.
pub open spec fn digit_char(d: nat) -> char {
    if d == 0 {
        '0'
    } else if d == 1 {
        '1'
    } else if d == 2 {
        '2'
    } else if d == 3 {
        '3'
    } else if d == 4 {
        '4'
    } else if d == 5 {
        '5'
    } else if d == 6 {
        '6'
    } else if d == 7 {
        '7'
    } else if d == 8 {
        '8'
    } else {
        '9'
    }
}

/// The decimal digits of `n`, most significant first.
pub open spec fn decimal_chars(n: nat) -> Seq<char>
    decreases n,
{
    if n < 10 {
        seq![digit_char(n)]
    } else {
        decimal_chars(n / 10).push(digit_char(n % 10))
    }
}

/// `n` in decimal, with zeros in front where it has fewer than `width`
/// digits.
pub open spec fn zero_padded(n: nat, width: nat) -> Seq<char> {
    let digits = decimal_chars(n);
    if digits.len() >= width {
        digits
    } else {
        Seq::new((width - digits.len()) as nat, |i: int| '0') + digits
    }
}

/// A letter or a digit of ASCII.
pub open spec fn is_alphanumeric(c: char) -> bool {
    ||| '0' <= c <= '9'
    ||| 'A' <= c <= 'Z'
    ||| 'a' <= c <= 'z'
}

/// Sixteen letters and digits.
pub open spec fn is_token(token: Seq<char>) -> bool {
    token.len() == TOKEN_LEN && forall|i: int| 0 <= i < token.len() ==> is_alphanumeric(token[i])
}

/// The name of a part file.
pub open spec fn part_file_name(prefix: Seq<char>, token: Seq<char>, bucket: nat) -> Seq<char> {
    prefix + "/part-"@ + token + "_"@ + zero_padded(bucket, BUCKET_WIDTH as nat) + ".parquet"@
}

/// `Alphanumeric.sample_string` of the rand crate, fed by the thread's
/// generator: a string of `len` characters, each drawn from the letters and
/// digits of ASCII. Nothing else is known of it; two calls may differ.
#[verifier::external_body]
fn random_alphanumeric(len: usize) -> (token: String)
    ensures
        token@.len() == len,
        forall|i: int| 0 <= i < token@.len() ==> is_alphanumeric(token@[i]),
{
    Alphanumeric.sample_string(&mut rand::rng(), len)
}

/// Appends one decimal digit.
fn push_digit(s: &mut String, d: usize)
    requires
        d < 10,
    ensures
        final(s)@ == old(s)@.push(digit_char(d as nat)),
{
    proof {
        reveal_strlit("0");
        reveal_strlit("1");
        reveal_strlit("2");
        reveal_strlit("3");
        reveal_strlit("4");
        reveal_strlit("5");
        reveal_strlit("6");
        reveal_strlit("7");
        reveal_strlit("8");
        reveal_strlit("9");
    }
    let digit = if d == 0 {
        "0"
    } else if d == 1 {
        "1"
    } else if d == 2 {
        "2"
    } else if d == 3 {
        "3"
    } else if d == 4 {
        "4"
    } else if d == 5 {
        "5"
    } else if d == 6 {
        "6"
    } else if d == 7 {
        "7"
    } else if d == 8 {
        "8"
    } else {
        "9"
    };
    assert(digit@ =~= seq![digit_char(d as nat)]);
    s.append(digit);
    assert(final(s)@ =~= old(s)@.push(digit_char(d as nat)));
}

/// Appends `n` in decimal.
fn push_decimal(s: &mut String, n: usize)
    ensures
        final(s)@ == old(s)@ + decimal_chars(n as nat),
    decreases n,
{
    if n >= 10 {
        push_decimal(s, n / 10);
    }
    push_digit(s, n % 10);
    assert(final(s)@ =~= old(s)@ + decimal_chars(n as nat));
}

/// The number of decimal digits of `n`.
fn decimal_len(n: usize) -> (k: usize)
    ensures
        k == decimal_chars(n as nat).len(),
{
    let mut k: usize = 1;
    let mut rest: usize = n;
    while rest >= 10
        invariant
            1 <= k,
            k + rest <= n + 1,
            k + decimal_chars(rest as nat).len() == decimal_chars(n as nat).len() + 1,
        decreases rest,
    {
        rest = rest / 10;
        k += 1;
    }
    k
}

/// Appends `n` in decimal, padded with zeros to `width` digits.
fn push_zero_padded(s: &mut String, n: usize, width: usize)
    ensures
        final(s)@ == old(s)@ + zero_padded(n as nat, width as nat),
{
    let digits = decimal_len(n);
    if digits < width {
        let zeros = width - digits;
        let mut i: usize = 0;
        proof {
            reveal_strlit("0");
        }
        while i < zeros
            invariant
                i <= zeros,
                "0"@ == seq!['0'],
                s@ == old(s)@ + Seq::new(i as nat, |k: int| '0'),
            decreases zeros - i,
        {
            s.append("0");
            assert(s@ =~= old(s)@ + Seq::new((i + 1) as nat, |k: int| '0'));
            i += 1;
        }
    } else {
        assert(s@ =~= old(s)@ + Seq::<char>::empty());
    }
    push_decimal(s, n);
    assert(final(s)@ =~= old(s)@ + zero_padded(n as nat, width as nat));
}

/// The name of the part file with the given token.
pub fn part_file(prefix: &String, token: &String, hash_bucket_id: usize) -> (name: String)
    ensures
        name@ == part_file_name(prefix@, token@, hash_bucket_id as nat),
{
    let mut name = prefix.clone();
    name.append("/part-");
    name.append(token.as_str());
    name.append("_");
    push_zero_padded(&mut name, hash_bucket_id, BUCKET_WIDTH);
    name.append(".parquet");
    name
}

/// A fresh name for a part file under `prefix`: the name of [`part_file`]
/// for some token of sixteen letters and digits.
pub fn generate_part_file(prefix: &String, hash_bucket_id: usize) -> (name: String)
    ensures
        exists|token: Seq<char>|
            is_token(token) && name@ == #[trigger] part_file_name(
                prefix@,
                token,
                hash_bucket_id as nat,
            ),
{
    let token = random_alphanumeric(TOKEN_LEN);
    assert(is_token(token@));
    part_file(prefix, &token, hash_bucket_id)
}

/// The files that a writer writes to: those it was given, or, if it was
/// given none but a prefix, one generated part file under the prefix.
pub fn default_files(files: Vec<String>, prefix: &String, hash_bucket_id: usize) -> (out: Vec<
    String,
>)
    ensures
        files@.len() > 0 || prefix@.len() == 0 ==> out == files,
        files@.len() == 0 && prefix@.len() > 0 ==> out@.len() == 1 && exists|token: Seq<char>|
            is_token(token) && out@[0]@ == #[trigger] part_file_name(
                prefix@,
                token,
                hash_bucket_id as nat,
            ),
{
    if files.len() == 0 && !prefix.as_str().is_empty() {
        let name = generate_part_file(prefix, hash_bucket_id);
        let mut out: Vec<String> = Vec::new();
        out.push(name);
        out
    } else {
        files
    }
}

} // verus!
