//! The two kinds of number that a mesh file holds: vertex indices, which are
//! read here, and coordinates, which are only recognised here and keep their
//! text.
use vstd::prelude::*;

verus! {

/// One of the ten decimal digits.
pub open spec fn is_digit(c: char) -> bool {
    '0' <= c <= '9'
}

/// The number that a decimal digit stands for.
pub open spec fn digit_value(c: char) -> nat {
    (c as u32 - '0' as u32) as nat
}

/// Every character of `s` is a decimal digit.
pub open spec fn all_digits(s: Seq<char>) -> bool {
    forall|i: int| 0 <= i < s.len() ==> is_digit(#[trigger] s[i])
}

/// The number that a run of decimal digits stands for.
pub open spec fn decimal(s: Seq<char>) -> nat
    decreases s.len(),
{
    if s.len() == 0 {
        0
    } else {
        decimal(s.drop_last()) * 10 + digit_value(s.last())
    }
}

/// `s` has a plus or minus sign at position `at`.
pub open spec fn has_sign(s: Seq<char>, at: int) -> bool {
    0 <= at < s.len() && (s[at] == '+' || s[at] == '-')
}

/// The digits of an index: the word without a plus sign in front.
pub open spec fn index_digits(word: Seq<char>) -> Seq<char> {
    if word.len() > 0 && word[0] == '+' {
        word.skip(1)
    } else {
        word
    }
}

/// The index that `word` stands for: one or more decimal digits, with or
/// without a plus sign in front, whose number fits the machine's word. Any
/// other word stands for no index.
pub open spec fn index_of(word: Seq<char>) -> Option<usize> {
    let digits = index_digits(word);
    if digits.len() > 0 && all_digits(digits) && decimal(digits) <= usize::MAX {
        Some(decimal(digits) as usize)
    } else {
        None
    }
}

/// The number of decimal digits of `s` in a row from position `from` on.
pub open spec fn digit_run(s: Seq<char>, from: int) -> nat
    decreases s.len() - from,
{
    if 0 <= from < s.len() && is_digit(s[from]) {
        1 + digit_run(s, from + 1)
    } else {
        0
    }
}

/// `c` is the small letter `small` or its capital.
pub open spec fn is_letter(c: char, small: char) -> bool {
    c == small || c as u32 + 32 == small as u32
}

/// `s` is `name`, which is written in small letters, in any mix of small
/// letters and capitals.
pub open spec fn spells(s: Seq<char>, name: Seq<char>) -> bool {
    s.len() == name.len() && forall|i: int|
        0 <= i < s.len() ==> is_letter(s[i], #[trigger] name[i])
}

/// `s` from `from` on names an infinity or the value that is not a number.
pub open spec fn is_special(s: Seq<char>, from: int) -> bool {
    let body = s.skip(from);
    ||| spells(body, seq!['i', 'n', 'f'])
    ||| spells(body, seq!['i', 'n', 'f', 'i', 'n', 'i', 't', 'y'])
    ||| spells(body, seq!['n', 'a', 'n'])
}

/// `s` from `from` on is a decimal number: digits with at most one point
/// among them, at least one digit in all, and then possibly an exponent: the
/// letter `e` in either case, a sign or none, and one or more digits.
pub open spec fn is_decimal(s: Seq<char>, from: int) -> bool {
    let whole = digit_run(s, from);
    let point = from + whole;
    let pointed = point < s.len() && s[point] == '.';
    let fraction = if pointed {
        digit_run(s, point + 1)
    } else {
        0
    };
    let mark = if pointed {
        point + 1 + fraction
    } else {
        point
    };
    let power = if has_sign(s, mark + 1) {
        mark + 2
    } else {
        mark + 1
    };
    &&& whole + fraction > 0
    &&& mark == s.len() || {
        &&& mark < s.len()
        &&& s[mark] == 'e' || s[mark] == 'E'
        &&& digit_run(s, power) > 0
        &&& power + digit_run(s, power) == s.len()
    }
}

/// `word` is written as a coordinate may be written: a sign or none, and
/// then a decimal number, `inf`, `infinity` or `nan`. These are the words
/// that the standard library reads as a floating-point number.
pub open spec fn is_number(word: Seq<char>) -> bool {
    let from: int = if has_sign(word, 0) {
        1
    } else {
        0
    };
    from < word.len() && (is_decimal(word, from) || is_special(word, from))
}

/// A run of digits stands for no less than any of its beginnings.
pub proof fn lemma_decimal_grows(s: Seq<char>, k: int)
    requires
        0 <= k <= s.len(),
    ensures
        decimal(s.take(k)) <= decimal(s),
    decreases s.len() - k,
{
    if k < s.len() {
        lemma_decimal_grows(s, k + 1);
        assert(s.take(k + 1).drop_last() =~= s.take(k));
    } else {
        assert(s.take(k) =~= s);
    }
}

/// Whether `c` is a decimal digit.
pub fn is_decimal_digit(c: char) -> (r: bool)
    ensures
        r == is_digit(c),
{
    '0' <= c && c <= '9'
}

/// The index that `word` stands for, where it stands for one.
pub fn parse_index(word: &Vec<char>) -> (r: Option<usize>)
    ensures
        r == index_of(word@),
{
    let start: usize = if word.len() > 0 && word[0] == '+' {
        1
    } else {
        0
    };
    let ghost digits = index_digits(word@);
    proof {
        assert(start == 0 ==> digits == word@);
        assert(digits.len() == word.len() - start);
    }
    if start == word.len() {
        return None;
    }
    let mut value: usize = 0;
    let mut i: usize = start;
    while i < word.len()
        invariant
            start <= i <= word.len(),
            start <= 1,
            digits == index_digits(word@),
            digits.len() == word.len() - start,
            forall|k: int| 0 <= k < digits.len() ==> digits[k] == word[k + start],
            all_digits(digits.take(i - start)),
            value == decimal(digits.take(i - start)),
        decreases word.len() - i,
    {
        let c = word[i];
        let ghost seen = digits.take(i - start);
        let ghost next = digits.take(i - start + 1);
        proof {
            assert(next.drop_last() =~= seen);
            assert(next.last() == c);
        }
        if !is_decimal_digit(c) {
            proof {
                assert(!is_digit(digits[i - start]));
            }
            return None;
        }
        let d: usize = (c as u32 - '0' as u32) as usize;
        if value > (usize::MAX - d) / 10 {
            proof {
                assert(decimal(next) == value * 10 + d);
                assert(value * 10 + d > usize::MAX) by (nonlinear_arith)
                    requires
                        value > (usize::MAX - d) / 10,
                        d < 10,
                ;
                lemma_decimal_grows(digits, i - start + 1);
            }
            return None;
        }
        proof {
            assert(value * 10 + d <= usize::MAX) by (nonlinear_arith)
                requires
                    value <= (usize::MAX - d) / 10,
                    d < 10,
            ;
            assert forall|k: int| 0 <= k < next.len() implies is_digit(#[trigger] next[k]) by {
                if k < seen.len() {
                    assert(seen[k] == next[k]);
                }
            }
        }
        value = value * 10 + d;
        i = i + 1;
    }
    proof {
        assert(digits.take(i - start) =~= digits);
    }
    Some(value)
}

/// The number of decimal digits of `s` in a row from position `from` on;
/// none where `from` is past the end.
pub fn count_digits(s: &Vec<char>, from: usize) -> (n: usize)
    ensures
        n == digit_run(s@, from as int),
        from <= s.len() ==> from + n <= s.len(),
{
    let mut i: usize = from;
    while i < s.len() && is_decimal_digit(s[i])
        invariant
            from <= i,
            from <= s.len() ==> i <= s.len(),
            digit_run(s@, from as int) == (i - from) + digit_run(s@, i as int),
        decreases s.len() - i,
    {
        i = i + 1;
    }
    i - from
}

/// Whether `s` from `from` on is `name` in any mix of small letters and
/// capitals.
fn spells_at(s: &Vec<char>, from: usize, name: &Vec<char>) -> (r: bool)
    requires
        from <= s.len(),
    ensures
        r == spells(s@.skip(from as int), name@),
{
    if s.len() - from != name.len() {
        return false;
    }
    let mut i: usize = 0;
    while i < name.len()
        invariant
            i <= name.len(),
            from <= s.len(),
            s.len() - from == name.len(),
            forall|k: int| 0 <= k < i ==> is_letter(s[from + k], #[trigger] name[k]),
        decreases name.len() - i,
    {
        let c = s[from + i];
        let small = name[i];
        let code: u32 = c as u32;
        let small_code: u32 = small as u32;
        if !(c == small || (code < small_code && small_code - code == 32)) {
            proof {
                assert(s@.skip(from as int)[i as int] == c);
            }
            return false;
        }
        i = i + 1;
    }
    proof {
        assert forall|k: int| 0 <= k < name.len() implies is_letter(
            s@.skip(from as int)[k],
            #[trigger] name[k],
        ) by {
            assert(s@.skip(from as int)[k] == s[from + k]);
        }
    }
    true
}

/// Whether `s` from `from` on names an infinity or the value that is not a
/// number.
fn is_special_at(s: &Vec<char>, from: usize) -> (r: bool)
    requires
        from <= s.len(),
    ensures
        r == is_special(s@, from as int),
{
    let inf = vec!['i', 'n', 'f'];
    let infinity = vec!['i', 'n', 'f', 'i', 'n', 'i', 't', 'y'];
    let nan = vec!['n', 'a', 'n'];
    proof {
        assert(inf@ =~= seq!['i', 'n', 'f']);
        assert(infinity@ =~= seq!['i', 'n', 'f', 'i', 'n', 'i', 't', 'y']);
        assert(nan@ =~= seq!['n', 'a', 'n']);
    }
    spells_at(s, from, &inf) || spells_at(s, from, &infinity) || spells_at(s, from, &nan)
}

/// Whether `s` from `from` on is a decimal number.
fn is_decimal_at(s: &Vec<char>, from: usize) -> (r: bool)
    requires
        from <= s.len(),
    ensures
        r == is_decimal(s@, from as int),
{
    let whole = count_digits(s, from);
    let point = from + whole;
    let pointed = point < s.len() && s[point] == '.';
    let fraction = if pointed {
        count_digits(s, point + 1)
    } else {
        0
    };
    let mark = if pointed {
        point + 1 + fraction
    } else {
        point
    };
    if whole + fraction == 0 {
        return false;
    }
    if mark == s.len() {
        return true;
    }
    if !(s[mark] == 'e' || s[mark] == 'E') {
        return false;
    }
    let power = if mark + 1 < s.len() && (s[mark + 1] == '+' || s[mark + 1] == '-') {
        mark + 2
    } else {
        mark + 1
    };
    let digits = count_digits(s, power);
    digits > 0 && power + digits == s.len()
}

/// Whether `word` is written as a coordinate may be written.
pub fn is_number_word(word: &Vec<char>) -> (r: bool)
    ensures
        r == is_number(word@),
{
    let from: usize = if word.len() > 0 && (word[0] == '+' || word[0] == '-') {
        1
    } else {
        0
    };
    if from >= word.len() {
        return false;
    }
    is_decimal_at(word, from) || is_special_at(word, from)
}

} // verus!
