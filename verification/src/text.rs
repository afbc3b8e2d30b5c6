//! Numbers in decimal, and the names of table files.

use vstd::arithmetic::div_mod::lemma_div_denominator;
use vstd::arithmetic::power::{lemma_pow0, lemma_pow1, lemma_pow_positive, pow};
use vstd::prelude::*;
use vstd::string::*;
use vstd::utf8::{decode_utf8, is_ascii_chars, valid_utf8};

verus! {

/// `String::push` appends one character.
pub assume_specification[ String::push ](s: &mut String, c: char)
    ensures
        final(s)@ == old(s)@.push(c),
;

/// `String::from_utf8` turns bytes that are valid UTF-8 into the text that they
/// encode, and refuses all others.
#[verifier::external_body]
pub(crate) fn utf8_text(v: Vec<u8>) -> (r: Option<String>)
    ensures
        match r {
            Some(s) => valid_utf8(v@) && s@ == decode_utf8(v@),
            None => !valid_utf8(v@),
        },
{
    String::from_utf8(v).ok()
}

/// The digit `d`.
pub open spec fn digit(d: nat) -> char {
    (48 + d) as char
}

/// The character is a decimal digit.
pub open spec fn is_digit(c: char) -> bool {
    '0' <= c <= '9'
}

/// `n` in decimal, without leading zeros.
pub open spec fn decimal(n: nat) -> Seq<char>
    decreases n,
{
    if n < 10 {
        seq![digit(n)]
    } else {
        decimal(n / 10).push(digit(n % 10))
    }
}

/// `n` zeros.
pub open spec fn zeros(n: nat) -> Seq<char> {
    Seq::new(n, |i: int| '0')
}

/// `n` in decimal, with zeros in front if there are fewer than `width` digits.
pub open spec fn padded(n: nat, width: nat) -> Seq<char> {
    if decimal(n).len() < width {
        zeros((width - decimal(n).len()) as nat) + decimal(n)
    } else {
        decimal(n)
    }
}

/// The number that a sequence of digits stands for.
pub open spec fn digits_value(s: Seq<char>) -> nat
    decreases s.len(),
{
    if s.len() == 0 {
        0
    } else {
        10 * digits_value(s.drop_last()) + (s.last() as nat - 48) as nat
    }
}

/// All characters are digits.
pub open spec fn all_digits(s: Seq<char>) -> bool {
    forall|i: int| 0 <= i < s.len() ==> is_digit(#[trigger] s[i])
}

/// A decimal number that fits in 64 bits, perhaps with a plus sign in front.
pub open spec fn parse_number(s: Seq<char>) -> Option<u64> {
    let t = if s.len() > 0 && s[0] == '+' {
        s.drop_first()
    } else {
        s
    };
    if t.len() > 0 && all_digits(t) && digits_value(t) <= u64::MAX {
        Some(digits_value(t) as u64)
    } else {
        None
    }
}

/// Where the first underscore stands; the length if there is none.
pub open spec fn first_underscore(s: Seq<char>) -> nat
    decreases s.len(),
{
    if s.len() == 0 || s[0] == '_' {
        0
    } else {
        1 + first_underscore(s.drop_first())
    }
}

/// The ending of a table file's name.
pub open spec fn table_suffix() -> Seq<char> {
    seq!['.', 's', 's', 't']
}

/// The name of the table file of a level with a sequence number.
pub open spec fn table_name(level: nat, seq: nat) -> Seq<char> {
    seq!['L'] + decimal(level) + seq!['_'] + padded(seq, 8) + table_suffix()
}

/// The sequence number in the name of a table file: what stands between the
/// first underscore and the ending `.sst`.
pub open spec fn seq_in_name(f: Seq<char>) -> Option<u64> {
    if f.len() < 4 || f.skip(f.len() - 4) != table_suffix() {
        None
    } else {
        let stem = f.take(f.len() - 4);
        let at = first_underscore(stem);
        if at == stem.len() {
            None
        } else {
            parse_number(stem.skip(at as int + 1))
        }
    }
}

/// A file name in a directory.
pub open spec fn path_join(dir: Seq<char>, name: Seq<char>) -> Seq<char> {
    if dir.len() == 0 || dir.last() == '/' {
        dir + name
    } else {
        dir.push('/') + name
    }
}

// ---- facts ---------------------------------------------------------------------

/// Decimal digits stand for the number that they were made of.
pub proof fn lemma_decimal(n: nat)
    ensures
        decimal(n).len() > 0,
        all_digits(decimal(n)),
        digits_value(decimal(n)) == n,
    decreases n,
{
    if n >= 10 {
        lemma_decimal(n / 10);
        let s = decimal(n);
        assert(s.drop_last() =~= decimal(n / 10));
        assert(s.last() as nat == 48 + n % 10);
        assert forall|i: int| 0 <= i < s.len() implies is_digit(#[trigger] s[i]) by {
            if i < s.len() - 1 {
                assert(s[i] == decimal(n / 10)[i]);
            }
        }
    } else {
        let s = decimal(n);
        assert(s.drop_last() =~= Seq::<char>::empty());
        assert(s.last() as nat == 48 + n);
        assert(digits_value(s.drop_last()) == 0);
    }
}

proof fn lemma_zeros_value(n: nat, s: Seq<char>)
    ensures
        digits_value(zeros(n) + s) == digits_value(s),
    decreases s.len() + n,
{
    if s.len() > 0 {
        lemma_zeros_value(n, s.drop_last());
        assert((zeros(n) + s).drop_last() =~= zeros(n) + s.drop_last());
    } else if n > 0 {
        lemma_zeros_value((n - 1) as nat, s);
        assert((zeros(n) + s).drop_last() =~= zeros((n - 1) as nat) + s);
    } else {
        assert(zeros(n) + s =~= s);
    }
}

proof fn lemma_padded(n: nat, width: nat)
    ensures
        padded(n, width).len() > 0,
        all_digits(padded(n, width)),
        digits_value(padded(n, width)) == n,
{
    lemma_decimal(n);
    if decimal(n).len() < width {
        lemma_zeros_value((width - decimal(n).len()) as nat, decimal(n));
    }
}

proof fn lemma_first_underscore(a: Seq<char>, b: Seq<char>)
    requires
        forall|i: int| 0 <= i < a.len() ==> #[trigger] a[i] != '_',
    ensures
        first_underscore(a + seq!['_'] + b) == a.len(),
    decreases a.len(),
{
    let s = a + seq!['_'] + b;
    if a.len() > 0 {
        lemma_first_underscore(a.drop_first(), b);
        assert(s.drop_first() =~= a.drop_first() + seq!['_'] + b);
        assert(s[0] == a[0]);
    }
}

/// The sequence number of a table file can be read off its name.
pub proof fn law_table_name_keeps_seq(level: nat, seq: u64)
    ensures
        seq_in_name(table_name(level, seq as nat)) == Some(seq),
{
    let f = table_name(level, seq as nat);
    let head = seq!['L'] + decimal(level);
    let num = padded(seq as nat, 8);
    lemma_decimal(level);
    lemma_padded(seq as nat, 8);
    assert(f.skip(f.len() - 4) =~= table_suffix());
    let stem = f.take(f.len() - 4);
    assert(stem =~= head + seq!['_'] + num);
    assert forall|i: int| 0 <= i < head.len() implies #[trigger] head[i] != '_' by {
        if i > 0 {
            assert(head[i] == decimal(level)[i - 1]);
            assert(is_digit(decimal(level)[i - 1]));
        }
    }
    lemma_first_underscore(head, num);
    assert(stem.skip(head.len() as int + 1) =~= num);
    assert(is_digit(num[0]));
}

/// The name of a table file is short and plain.
pub proof fn lemma_table_name_ascii(level: nat, seq: nat)
    requires
        level <= u64::MAX,
        seq <= u64::MAX,
    ensures
        table_name(level, seq).len() <= 60,
        is_ascii_chars(table_name(level, seq)),
{
    reveal_with_fuel(pow10, 21);
    lemma_decimal_short(level, 20);
    lemma_decimal_short(seq, 20);
    lemma_decimal(level);
    lemma_padded(seq, 8);
    let n = table_name(level, seq);
    let a = decimal(level);
    let b = padded(seq, 8);
    assert forall|i: int| 0 <= i < n.len() implies '\0' <= #[trigger] n[i] <= '\u{7f}' by {
        if 1 <= i < 1 + a.len() {
            assert(n[i] == a[i - 1]);
            assert(is_digit(a[i - 1]));
        } else if 2 + a.len() <= i < 2 + a.len() + b.len() {
            assert(n[i] == b[i - 2 - a.len()]);
            assert(is_digit(b[i - 2 - a.len()]));
        } else if i >= 2 + a.len() + b.len() {
            let k = i - 2 - a.len() - b.len();
            assert(n[i] == table_suffix()[k]);
            if k == 0 {
                assert(n[i] == '.');
            } else if k == 3 {
                assert(n[i] == 't');
            } else {
                assert(k == 1 || k == 2);
                assert(n[i] == 's');
            }
        } else if i == 0 {
            assert(n[i] == 'L');
        } else {
            assert(n[i] == '_');
        }

    }
}

proof fn lemma_value_grows(s: Seq<char>, i: int)
    requires
        0 <= i <= s.len(),
    ensures
        digits_value(s.take(i)) <= digits_value(s),
    decreases s.len() - i,
{
    if i < s.len() {
        lemma_value_grows(s, i + 1);
        assert(s.take(i + 1).drop_last() =~= s.take(i));
    } else {
        assert(s.take(i) =~= s);
    }
}

// ---- code ----------------------------------------------------------------------

fn push_digit(out: &mut String, d: u64)
    requires
        d < 10,
    ensures
        final(out)@ == old(out)@.push(digit(d as nat)),
{
    let c: char = match d {
        0 => '0',
        1 => '1',
        2 => '2',
        3 => '3',
        4 => '4',
        5 => '5',
        6 => '6',
        7 => '7',
        8 => '8',
        _ => '9',
    };
    out.push(c);
}

/// Append `n` in decimal.
pub fn push_decimal(out: &mut String, n: u64)
    ensures
        final(out)@ == old(out)@ + decimal(n as nat),
    decreases n,
{
    if n >= 10 {
        push_decimal(out, n / 10);
    }
    push_digit(out, n % 10);
    assert(out@ =~= old(out)@ + decimal(n as nat));
}

spec fn pow10(k: nat) -> nat
    decreases k,
{
    if k == 0 {
        1
    } else {
        10 * pow10((k - 1) as nat)
    }
}

proof fn lemma_decimal_short(n: nat, k: nat)
    requires
        n < pow10(k),
        k >= 1,
    ensures
        decimal(n).len() <= k,
    decreases k,
{
    if n >= 10 {
        if k == 1 {
            assert(pow10(0) == 1);
        } else {
            lemma_decimal_short(n / 10, (k - 1) as nat);
        }
    }
}

fn count_digits(n: u64) -> (r: usize)
    ensures
        r == decimal(n as nat).len(),
{
    let mut r: usize = 1;
    let mut m: u64 = n;
    proof {
        reveal_with_fuel(pow10, 21);
        lemma_decimal_short(n as nat, 20);
    }
    while m >= 10
        invariant
            r >= 1,
            r + decimal(m as nat).len() == decimal(n as nat).len() + 1,
            decimal(n as nat).len() <= 20,
        decreases m,
    {
        m = m / 10;
        r = r + 1;
        proof {
            lemma_decimal(m as nat);
        }
    }
    r
}

/// Append `n` in decimal, with zeros in front up to `width` digits.
pub fn push_padded(out: &mut String, n: u64, width: usize)
    ensures
        final(out)@ == old(out)@ + padded(n as nat, width as nat),
{
    let have: usize = count_digits(n);
    let ghost start = out@;
    let mut i: usize = have;
    while i < width
        invariant
            have <= i,
            i <= width || have > width,
            i == have || i <= width,
            out@ == start + zeros((i - have) as nat),
        decreases width - i,
    {
        out.push('0');
        i = i + 1;
        assert(out@ =~= start + zeros((i - have) as nat));
    }
    push_decimal(out, n);
    assert(out@ =~= start + padded(n as nat, width as nat));
}

/// The name of the table file of a level with a sequence number.
pub fn sstable_file_name(level: u32, seq: u64) -> (r: String)
    ensures
        r@ == table_name(level as nat, seq as nat),
{
    let mut out: String = String::new();
    out.push('L');
    push_decimal(&mut out, level as u64);
    out.push('_');
    push_padded(&mut out, seq, 8);
    out.push('.');
    out.push('s');
    out.push('s');
    out.push('t');
    assert(out@ =~= table_name(level as nat, seq as nat));
    out
}

/// The decimal number in `s` from position `from` on.
fn number_from(s: &str, from: usize, to: usize) -> (r: Option<u64>)
    requires
        from <= to <= s@.len(),
    ensures
        r == parse_number(s@.subrange(from as int, to as int)),
{
    let ghost all = s@.subrange(from as int, to as int);
    let mut i: usize = from;
    if from < to && s.get_char(from) == '+' {
        i = from + 1;
    }
    let begin: usize = i;
    let ghost t = s@.subrange(begin as int, to as int);
    proof {
        if begin == from + 1 {
            assert(all.drop_first() =~= t);
        }
        assert(t.take(0) =~= Seq::<char>::empty());
    }
    if begin == to {
        return None;
    }
    let mut acc: u64 = 0;
    while i < to
        invariant
            begin <= i <= to <= s@.len(),
            all == s@.subrange(from as int, to as int),
            t == s@.subrange(begin as int, to as int),
            acc == digits_value(t.take(i - begin)),
            forall|k: int| 0 <= k < i - begin ==> is_digit(#[trigger] t[k]),
            parse_number(all) == (if t.len() > 0 && all_digits(t) && digits_value(t) <= u64::MAX {
                Some(digits_value(t) as u64)
            } else {
                None::<u64>
            }),
        decreases to - i,
    {
        let c: char = s.get_char(i);
        assert(t[i - begin] == c);
        if c < '0' || c > '9' {
            assert(!is_digit(t[i - begin]));
            return None;
        }
        let d: u64 = (c as u32 - 48) as u64;
        proof {
            let u = t.take(i - begin + 1);
            assert(u.drop_last() =~= t.take(i - begin));
            assert(u.last() == c);
            lemma_value_grows(t, i - begin + 1);
            assert(digits_value(u) == 10 * acc + d);
        }
        if acc > (u64::MAX - d) / 10 {
            return None;
        }
        acc = acc * 10 + d;
        i = i + 1;
    }
    assert(t.take(to - begin) =~= t);
    Some(acc)
}

/// The sequence number in the name of a table file.
pub fn seq_from_filename(filename: &str) -> (r: Option<u64>)
    ensures
        r == seq_in_name(filename@),
{
    let n: usize = filename.unicode_len();
    let ghost f = filename@;
    if n < 4 {
        return None;
    }
    let ends: bool = filename.get_char(n - 4) == '.' && filename.get_char(n - 3) == 's'
        && filename.get_char(n - 2) == 's' && filename.get_char(n - 1) == 't';
    proof {
        let suffix = f.skip(f.len() - 4);
        if ends {
            assert(suffix =~= table_suffix());
        } else {
            assert(suffix[0] == f[n - 4] && suffix[1] == f[n - 3] && suffix[2] == f[n - 2]
                && suffix[3] == f[n - 1]);
        }
    }
    if !ends {
        return None;
    }
    let ghost stem = f.take(f.len() - 4);
    let mut i: usize = 0;
    assert(stem.skip(0) =~= stem);
    while i < n - 4 && filename.get_char(i) != '_'
        invariant
            i <= n - 4,
            n >= 4,
            n == f.len(),
            f == filename@,
            stem == f.take(f.len() - 4),
            first_underscore(stem) == i + first_underscore(stem.skip(i as int)),
        decreases n - i,
    {
        assert(stem.skip(i as int).drop_first() =~= stem.skip(i + 1));
        assert(stem.skip(i as int)[0] == f[i as int]);
        i = i + 1;
    }
    if i == n - 4 {
        return None;
    }
    assert(stem.skip(i as int)[0] == '_');
    assert(stem.skip(i + 1) =~= f.subrange(i + 1, n - 4));
    number_from(filename, i + 1, n - 4)
}

// ---- laws ----------------------------------------------------------------------

/// Each place of a decimal number has the digit of its power of ten, and there are no more
/// places than the number needs.
pub proof fn law_decimal_digits(n: nat, i: int)
    requires
        0 <= i < decimal(n).len(),
    ensures
        decimal(n)[decimal(n).len() - 1 - i] as int == 48 + (n as int / pow(10, i as nat)) % 10,
        n < pow(10, decimal(n).len()),
        decimal(n).len() > 1 ==> pow(10, (decimal(n).len() - 1) as nat) <= n,
    decreases n,
{
    lemma_pow0(10);
    lemma_pow1(10);
    if n >= 10 {
        let m = n / 10;
        let k = decimal(m).len();
        lemma_decimal(m);
        let j: int = if i > 0 {
            i - 1
        } else {
            0
        };
        law_decimal_digits(m, j);
        assert(pow(10, k + 1) == 10 * pow(10, k)) by {
            reveal(pow);
        }
        assert(pow(10, k) == 10 * pow(10, (k - 1) as nat)) by {
            reveal(pow);
        }
        if i > 0 {
            assert(pow(10, i as nat) == 10 * pow(10, (i - 1) as nat)) by {
                reveal(pow);
            }
            lemma_pow_positive(10, (i - 1) as nat);
            lemma_div_denominator(n as int, 10, pow(10, (i - 1) as nat));
            assert(decimal(n)[decimal(n).len() - 1 - i] == decimal(m)[k - 1 - (i - 1)]);
        }
    }
}

/// The name of a table file: `L`, the level, an underscore, the number with as many zeros in
/// front as it takes to have eight digits, and `.sst`.
pub proof fn law_table_name_parts(level: nat, seq: nat)
    ensures
        exists|zeros: Seq<char>|
            (forall|i: int| 0 <= i < zeros.len() ==> zeros[i] == '0') && zeros.len() == (if decimal(
                seq,
            ).len() < 8 {
                8 - decimal(seq).len()
            } else {
                0
            }) && table_name(level, seq) == #[trigger] ("L"@ + decimal(level) + "_"@ + zeros
                + decimal(seq) + ".sst"@),
{
    reveal_strlit("L");
    reveal_strlit("_");
    reveal_strlit(".sst");
    let n: nat = if decimal(seq).len() < 8 {
        (8 - decimal(seq).len()) as nat
    } else {
        0
    };
    let z = zeros(n);
    assert(table_name(level, seq) =~= "L"@ + decimal(level) + "_"@ + z + decimal(seq) + ".sst"@);
}

/// A number is read off its decimal digits, also with zeros or a plus sign in front, unless
/// it is too large; and nothing else is read as a number.
pub proof fn law_numbers_are_read_from_decimal(n: nat, zeros: Seq<char>, s: Seq<char>, i: int)
    requires
        forall|j: int| 0 <= j < zeros.len() ==> zeros[j] == '0',
    ensures
        n <= u64::MAX ==> parse_number(zeros + decimal(n)) == Some(n as u64),
        n <= u64::MAX ==> parse_number(seq!['+'] + zeros + decimal(n)) == Some(n as u64),
        n > u64::MAX ==> parse_number(zeros + decimal(n)) is None,
        s.len() == 0 ==> parse_number(s) is None,
        0 < i < s.len() && !('0' <= s[i] <= '9') ==> parse_number(s) is None,
        s.len() > 0 && s[0] != '+' && !('0' <= s[0] <= '9') ==> parse_number(s) is None,
        s == seq!['+'] ==> parse_number(s) is None,
{
    let t = zeros + decimal(n);
    lemma_decimal(n);
    assert(zeros =~= crate::text::zeros(zeros.len()));
    lemma_zeros_value(zeros.len(), decimal(n));
    assert forall|j: int| 0 <= j < t.len() implies is_digit(#[trigger] t[j]) by {
        if j >= zeros.len() {
            assert(t[j] == decimal(n)[j - zeros.len()]);
        }
    }
    assert(is_digit(t[0]));
    let p = seq!['+'] + zeros + decimal(n);
    assert(p.drop_first() =~= t);
    if 0 < i < s.len() && !('0' <= s[i] <= '9') {
        if s[0] == '+' {
            assert(s.drop_first()[i - 1] == s[i]);
            assert(!is_digit(s.drop_first()[i - 1]));
        } else {
            assert(!is_digit(s[i]));
        }
    }
    if s.len() > 0 && s[0] != '+' && !('0' <= s[0] <= '9') {
        assert(!is_digit(s[0]));
    }
}

/// The number of a table file stands between the first underscore of its name and the
/// ending `.sst`; a name without one of the two has no number.
pub proof fn law_number_stands_behind_the_underscore(head: Seq<char>, num: Seq<char>, f: Seq<char>)
    requires
        forall|i: int| 0 <= i < head.len() ==> #[trigger] head[i] != '_',
    ensures
        seq_in_name(head + "_"@ + num + ".sst"@) == parse_number(num),
        seq_in_name(head + ".sst"@) is None,
        f.len() < 4 || f.skip(f.len() - 4) != ".sst"@ ==> seq_in_name(f) is None,
{
    reveal_strlit("_");
    reveal_strlit(".sst");
    assert(".sst"@ =~= table_suffix());
    let a = head + "_"@ + num + ".sst"@;
    assert(a.skip(a.len() - 4) =~= table_suffix());
    assert("_"@ =~= seq!['_']);
    assert(a.take(a.len() - 4) =~= head + seq!['_'] + num);
    lemma_first_underscore(head, num);
    assert((head + seq!['_'] + num).skip(head.len() as int + 1) =~= num);
    let b = head + ".sst"@;
    assert(b.skip(b.len() - 4) =~= table_suffix());
    assert(b.take(b.len() - 4) =~= head);
    lemma_no_underscore(head);
}

proof fn lemma_no_underscore(s: Seq<char>)
    requires
        forall|i: int| 0 <= i < s.len() ==> #[trigger] s[i] != '_',
    ensures
        first_underscore(s) == s.len(),
    decreases s.len(),
{
    if s.len() > 0 {
        let t = s.drop_first();
        assert forall|i: int| 0 <= i < t.len() implies #[trigger] t[i] != '_' by {
            assert(t[i] == s[i + 1]);
        }
        lemma_no_underscore(t);
        assert(s[0] != '_');
    }
}

/// A file in a directory: the two names with one slash between them.
pub proof fn law_paths_are_joined_by_one_slash(dir: Seq<char>, name: Seq<char>)
    ensures
        dir.len() > 0 && dir.last() != '/' ==> path_join(dir, name) == dir + seq!['/'] + name,
        dir.len() > 0 && dir.last() == '/' ==> path_join(dir, name) == dir + name,
        dir.len() == 0 ==> path_join(dir, name) == name,
{
    assert(dir.push('/') + name =~= dir + seq!['/'] + name);
    if dir.len() == 0 {
        assert(dir + name =~= name);
    }
}

} // verus!
