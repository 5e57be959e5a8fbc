//! Text as a sequence of characters: lines, and the words of a line.
use vstd::prelude::*;

verus! {

/// The characters that separate words: those with the Unicode property
/// White_Space.
pub open spec fn is_space(c: char) -> bool {
    let u = c as u32;
    ||| 0x09 <= u <= 0x0d
    ||| u == 0x20
    ||| u == 0x85
    ||| u == 0xa0
    ||| u == 0x1680
    ||| 0x2000 <= u <= 0x200a
    ||| u == 0x2028
    ||| u == 0x2029
    ||| u == 0x202f
    ||| u == 0x205f
    ||| u == 0x3000
}

/// The views of a list of character vectors.
pub open spec fn texts(v: Seq<Vec<char>>) -> Seq<Seq<char>> {
    v.map_values(|l: Vec<char>| l@)
}

/// The number of characters before the first line feed of `s`, or the length
/// of `s` where it holds none.
pub open spec fn line_len(s: Seq<char>) -> nat
    decreases s.len(),
{
    if s.len() == 0 || s[0] == '\n' {
        0
    } else {
        1 + line_len(s.skip(1))
    }
}

/// The lines of `s`: the pieces between its line feeds. A text with `n` line
/// feeds has `n + 1` lines, the last of which is empty where the text ends in
/// a line feed.
pub open spec fn lines(s: Seq<char>) -> Seq<Seq<char>>
    decreases s.len(),
{
    let n = line_len(s);
    if n >= s.len() {
        seq![s]
    } else {
        seq![s.take(n as int)] + lines(s.skip(n as int + 1))
    }
}

/// The number of characters before the first white space of `s`, or the
/// length of `s` where it holds none.
pub open spec fn word_len(s: Seq<char>) -> nat
    decreases s.len(),
{
    if s.len() == 0 || is_space(s[0]) {
        0
    } else {
        1 + word_len(s.skip(1))
    }
}

/// The words of `s`: its longest runs of characters that are not white
/// space, in order. No word is empty.
pub open spec fn words(s: Seq<char>) -> Seq<Seq<char>>
    decreases s.len(),
    via words_terminates
{
    if s.len() == 0 {
        Seq::empty()
    } else if is_space(s[0]) {
        words(s.skip(1))
    } else {
        let n = word_len(s);
        seq![s.take(n as int)] + words(s.skip(n as int))
    }
}

#[via_fn]
proof fn words_terminates(s: Seq<char>) {
    lemma_word_len_bounds(s);
}

/// Where the first `k` characters of `s` hold no line feed and `s` ends or
/// has a line feed there, the first line of `s` is `k` long.
pub proof fn lemma_line_len(s: Seq<char>, k: int)
    requires
        0 <= k <= s.len(),
        forall|j: int| 0 <= j < k ==> s[j] != '\n',
        k == s.len() || s[k] == '\n',
    ensures
        line_len(s) == k,
    decreases k,
{
    if k > 0 {
        lemma_line_len(s.skip(1), k - 1);
    }
}

/// Where the first `k` characters of `s` hold no white space and `s` ends or
/// has white space there, the first run of `s` is `k` long.
pub proof fn lemma_word_len(s: Seq<char>, k: int)
    requires
        0 <= k <= s.len(),
        forall|j: int| 0 <= j < k ==> !is_space(s[j]),
        k == s.len() || is_space(s[k]),
    ensures
        word_len(s) == k,
    decreases k,
{
    if k > 0 {
        lemma_word_len(s.skip(1), k - 1);
    }
}

/// Whether `c` separates words.
pub fn is_whitespace(c: char) -> (r: bool)
    ensures
        r == is_space(c),
{
    let u: u32 = c as u32;
    (0x09 <= u && u <= 0x0d) || u == 0x20 || u == 0x85 || u == 0xa0 || u == 0x1680 || (0x2000 <= u
        && u <= 0x200a) || u == 0x2028 || u == 0x2029 || u == 0x202f || u == 0x205f || u == 0x3000
}

/// The characters of a string.
pub fn chars_of(text: &str) -> (out: Vec<char>)
    ensures
        out@ == text@,
{
    let mut out: Vec<char> = Vec::new();
    for c in it: text.chars()
        invariant
            out@ == it.seq().take(it.index() as int),
            it.seq() == text@,
    {
        out.push(c);
    }
    out
}

/// Splits a text into its lines.
pub fn split_lines(text: &Vec<char>) -> (out: Vec<Vec<char>>)
    ensures
        texts(out@) == lines(text@),
{
    let mut out: Vec<Vec<char>> = Vec::new();
    let mut line: Vec<char> = Vec::new();
    let ghost mut start: int = 0;
    let mut i: usize = 0;
    proof {
        assert(text@.skip(0) =~= text@);
        assert(texts(out@) + lines(text@) =~= lines(text@));
    }
    while i < text.len()
        invariant
            0 <= start <= i <= text.len(),
            line@ == text@.subrange(start, i as int),
            forall|j: int| start <= j < i ==> text[j] != '\n',
            lines(text@) == texts(out@) + lines(text@.skip(start)),
        decreases text.len() - i,
    {
        let c = text[i];
        if c == '\n' {
            proof {
                let rest = text@.skip(start);
                lemma_line_len(rest, i - start);
                assert(rest.take(i - start) =~= line@);
                assert(rest.skip(i - start + 1) =~= text@.skip(i + 1));
                assert(texts(out@.push(line)) =~= texts(out@) + seq![line@]);
                assert(texts(out@) + (seq![line@] + lines(text@.skip(i + 1))) =~= texts(out@)
                    + seq![line@] + lines(text@.skip(i + 1)));
            }
            out.push(line);
            line = Vec::new();
            proof {
                start = i + 1;
            }
        } else {
            line.push(c);
            proof {
                assert(line@ =~= text@.subrange(start, i + 1));
            }
        }
        i = i + 1;
    }
    proof {
        let rest = text@.skip(start);
        lemma_line_len(rest, text.len() - start);
        assert(rest =~= line@);
        assert(texts(out@.push(line)) =~= texts(out@) + seq![line@]);
    }
    out.push(line);
    out
}

/// Splits a line into its words.
pub fn split_words(line: &Vec<char>) -> (out: Vec<Vec<char>>)
    ensures
        texts(out@) == words(line@),
{
    let mut out: Vec<Vec<char>> = Vec::new();
    let mut i: usize = 0;
    proof {
        assert(line@.skip(0) =~= line@);
        assert(texts(out@) + words(line@) =~= words(line@));
    }
    while i < line.len()
        invariant
            i <= line.len(),
            words(line@) == texts(out@) + words(line@.skip(i as int)),
        decreases line.len() - i,
    {
        let ghost rest = line@.skip(i as int);
        if is_whitespace(line[i]) {
            proof {
                assert(rest.skip(1) =~= line@.skip(i + 1));
            }
            i = i + 1;
        } else {
            let mut word: Vec<char> = Vec::new();
            let mut j: usize = i;
            while j < line.len() && !is_whitespace(line[j])
                invariant
                    i <= j <= line.len(),
                    word@ == line@.subrange(i as int, j as int),
                    forall|k: int| i <= k < j ==> !is_space(line[k]),
                decreases line.len() - j,
            {
                word.push(line[j]);
                proof {
                    assert(word@ =~= line@.subrange(i as int, j + 1));
                }
                j = j + 1;
            }
            proof {
                lemma_word_len(rest, j - i);
                assert(rest.take(j - i) =~= word@);
                assert(rest.skip(j - i) =~= line@.skip(j as int));
                assert(texts(out@.push(word)) =~= texts(out@) + seq![word@]);
                assert(texts(out@) + (seq![word@] + words(line@.skip(j as int))) =~= texts(out@)
                    + seq![word@] + words(line@.skip(j as int)));
            }
            out.push(word);
            i = j;
        }
    }
    proof {
        assert(texts(out@) + Seq::<Seq<char>>::empty() =~= texts(out@));
    }
    out
}

/// Every word of a line is a run of the line without white space, and is
/// not empty.
pub proof fn lemma_words_hold_no_space(s: Seq<char>, k: int)
    requires
        0 <= k < words(s).len(),
    ensures
        words(s)[k].len() > 0,
        forall|j: int| 0 <= j < words(s)[k].len() ==> !is_space(#[trigger] words(s)[k][j]),
    decreases s.len(),
{
    if s.len() == 0 {
    } else if is_space(s[0]) {
        lemma_words_hold_no_space(s.skip(1), k);
    } else {
        let n = word_len(s);
        lemma_word_len_bounds(s);
        if k == 0 {
            let w = s.take(n as int);
            assert forall|j: int| 0 <= j < w.len() implies !is_space(#[trigger] w[j]) by {
                lemma_run_holds_no_space(s, j);
            }
        } else {
            lemma_words_hold_no_space(s.skip(n as int), k - 1);
        }
    }
}

/// The first run of `s` is no longer than `s`.
pub proof fn lemma_word_len_bounds(s: Seq<char>)
    ensures
        word_len(s) <= s.len(),
    decreases s.len(),
{
    if s.len() > 0 && !is_space(s[0]) {
        lemma_word_len_bounds(s.skip(1));
    }
}

/// The first run of `s` holds no white space.
proof fn lemma_run_holds_no_space(s: Seq<char>, j: int)
    requires
        0 <= j < word_len(s),
    ensures
        j < s.len(),
        !is_space(s[j]),
    decreases s.len(),
{
    if j > 0 {
        lemma_run_holds_no_space(s.skip(1), j - 1);
    }
}

} // verus!
