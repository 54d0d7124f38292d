//! The word list: the text of a word-per-line file, split into lines and
//! trimmed of surrounding whitespace, in file order and with duplicates kept.

use vstd::prelude::*;

verus! {

/// Whether `c` is whitespace: the Unicode White_Space code points, the set
/// that `str::trim` removes at the ends of a line.
pub open spec fn is_space(c: char) -> bool {
    let u = c as u32;
    u == 0x20 || (0x9 <= u && u <= 0xd) || u == 0x85 || u == 0xa0 || u == 0x1680 || (0x2000 <= u
        && u <= 0x200a) || u == 0x2028 || u == 0x2029 || u == 0x202f || u == 0x205f || u == 0x3000
}

/// Whitespace test on one character.
fn is_space_char(c: char) -> (r: bool)
    ensures
        r == is_space(c),
{
    let u = c as u32;
    u == 0x20 || (0x9 <= u && u <= 0xd) || u == 0x85 || u == 0xa0 || u == 0x1680 || (0x2000 <= u
        && u <= 0x200a) || u == 0x2028 || u == 0x2029 || u == 0x202f || u == 0x205f || u == 0x3000
}

/// `s` without leading and trailing whitespace.
pub open spec fn trim_seq(s: Seq<char>) -> Seq<char>
    decreases s.len(),
{
    if s.len() == 0 {
        s
    } else if is_space(s[0]) {
        trim_seq(s.skip(1))
    } else if is_space(s.last()) {
        trim_seq(s.drop_last())
    } else {
        s
    }
}

/// The index of the first line feed in `s`, or `s.len()` if there is none.
pub open spec fn first_newline(s: Seq<char>) -> int
    decreases s.len(),
{
    if s.len() == 0 {
        0
    } else if s[0] == '\n' {
        0
    } else {
        1 + first_newline(s.skip(1))
    }
}

proof fn lemma_first_newline(s: Seq<char>)
    ensures
        0 <= first_newline(s) <= s.len(),
        first_newline(s) < s.len() ==> s[first_newline(s)] == '\n',
        forall|k: int| 0 <= k < first_newline(s) ==> s[k] != '\n',
    decreases s.len(),
{
    if s.len() > 0 && s[0] != '\n' {
        lemma_first_newline(s.skip(1));
        assert forall|k: int| 0 <= k < first_newline(s) implies s[k] != '\n' by {
            if k > 0 {
                assert(s.skip(1)[k - 1] == s[k]);
            }
        }
    }
}

/// There is only one index that the first-newline conditions fit.
proof fn lemma_first_newline_unique(s: Seq<char>, j: int)
    requires
        0 <= j <= s.len(),
        forall|k: int| 0 <= k < j ==> s[k] != '\n',
        j < s.len() ==> s[j] == '\n',
    ensures
        first_newline(s) == j,
    decreases s.len(),
{
    if s.len() > 0 && s[0] != '\n' {
        assert(forall|k: int| 0 <= k < j - 1 ==> s.skip(1)[k] == s[k + 1]);
        lemma_first_newline_unique(s.skip(1), j - 1);
    }
}

/// The words of a word-per-line text: one trimmed word per line, lines ending
/// at each line feed, the final line with or without one.
pub open spec fn word_list(s: Seq<char>) -> Seq<Seq<char>>
    decreases s.len(),
    via word_list_decreases
{
    if s.len() == 0 {
        Seq::empty()
    } else {
        let i = first_newline(s);
        if i == s.len() {
            seq![trim_seq(s)]
        } else {
            seq![trim_seq(s.take(i))] + word_list(s.skip(i + 1))
        }
    }
}

#[via_fn]
proof fn word_list_decreases(s: Seq<char>) {
    lemma_first_newline(s);
}

/// Trimming keeps exactly the span between the first and the last
/// non-whitespace character.
proof fn lemma_trim_span(s: Seq<char>, lo: int, hi: int)
    requires
        0 <= lo <= hi <= s.len(),
        forall|k: int| 0 <= k < lo ==> is_space(s[k]),
        forall|k: int| hi <= k < s.len() ==> is_space(s[k]),
        lo < hi ==> !is_space(s[lo]) && !is_space(s[hi - 1]),
    ensures
        trim_seq(s) == s.subrange(lo, hi),
    decreases s.len(),
{
    if s.len() == 0 {
        assert(trim_seq(s) =~= s.subrange(lo, hi));
    } else if is_space(s[0]) {
        let t = s.skip(1);
        assert(forall|k: int| 0 <= k < t.len() ==> t[k] == s[k + 1]);
        if lo == hi {
            lemma_trim_span(t, 0, 0);
            assert(trim_seq(s) =~= s.subrange(lo, hi));
        } else {
            lemma_trim_span(t, lo - 1, hi - 1);
            assert(t.subrange(lo - 1, hi - 1) =~= s.subrange(lo, hi));
        }
    } else if is_space(s.last()) {
        let t = s.drop_last();
        if lo == hi {
            lemma_trim_span(t, 0, 0);
            assert(trim_seq(s) =~= s.subrange(lo, hi));
        } else {
            lemma_trim_span(t, lo, hi);
            assert(t.subrange(lo, hi) =~= s.subrange(lo, hi));
        }
    } else {
        assert(trim_seq(s) =~= s.subrange(lo, hi));
    }
}

/// The line without its leading and trailing whitespace, as an owned word.
fn trimmed(line: &str) -> (word: String)
    ensures
        word@ == trim_seq(line@),
{
    let n = line.unicode_len();
    let mut lo: usize = 0;
    while lo < n && is_space_char(line.get_char(lo))
        invariant
            lo <= n,
            n == line@.len(),
            forall|k: int| 0 <= k < lo ==> is_space(line@[k]),
        decreases n - lo,
    {
        lo += 1;
    }
    let mut hi: usize = n;
    while hi > lo && is_space_char(line.get_char(hi - 1))
        invariant
            lo <= hi <= n,
            n == line@.len(),
            forall|k: int| hi <= k < n ==> is_space(line@[k]),
        decreases hi,
    {
        hi -= 1;
    }
    proof {
        lemma_trim_span(line@, lo as int, hi as int);
    }
    String::from_str(line.substring_char(lo, hi))
}

/// The words of `content` from character `from` on.
fn parse_rest(content: &str, from: usize) -> (words: Vec<String>)
    requires
        from as int <= content@.len(),
    ensures
        words.deep_view() == word_list(content@.skip(from as int)),
    decreases content@.len() - from as int,
{
    let n = content.unicode_len();
    let ghost rest = content@.skip(from as int);
    if from == n {
        let words: Vec<String> = Vec::new();
        proof {
            assert(rest =~= Seq::<char>::empty());
            assert(words.deep_view() =~= Seq::<Seq<char>>::empty());
        }
        return words;
    }
    let mut i: usize = from;
    while i < n && content.get_char(i) != '\n'
        invariant
            from <= i <= n,
            n == content@.len(),
            forall|k: int| from <= k < i ==> content@[k] != '\n',
        decreases n - i,
    {
        i += 1;
    }
    proof {
        assert(forall|k: int| 0 <= k < rest.len() ==> rest[k] == content@[k + from]);
        lemma_first_newline_unique(rest, i as int - from as int);
    }
    if i == n {
        let word = trimmed(content.substring_char(from, n));
        let mut words: Vec<String> = Vec::new();
        words.push(word);
        proof {
            assert(content@.subrange(from as int, n as int) =~= rest);
            assert(words.deep_view() =~= word_list(rest));
        }
        words
    } else {
        let word = trimmed(content.substring_char(from, i));
        let mut words = parse_rest(content, i + 1);
        let ghost tail = words.deep_view();
        let ghost before = words@;
        words.insert(0, word);
        proof {
            let fnl = i as int - from as int;
            assert(rest.take(fnl) =~= content@.subrange(from as int, i as int));
            assert(rest.skip(fnl + 1) =~= content@.skip(i as int + 1));
            before.insert_ensures(0, word);
            assert(words.deep_view() =~= seq![word@] + tail);
            assert(word_list(rest) == seq![trim_seq(rest.take(fnl))] + word_list(
                rest.skip(fnl + 1),
            ));
        }
        words
    }
}

/// The dictionary a word-per-line text yields: one word per line, each
/// trimmed of surrounding whitespace, in file order, duplicates kept.
pub fn parse_word_list(content: &str) -> (words: Vec<String>)
    ensures
        words.deep_view() == word_list(content@),
{
    let words = parse_rest(content, 0);
    proof {
        assert(content@.skip(0) =~= content@);
    }
    words
}

/// Loading is deterministic: two copies of the same word-list text yield the
/// same ordered sequence of words.
pub proof fn lemma_word_list_deterministic(c1: Seq<char>, c2: Seq<char>)
    requires
        c1 == c2,
    ensures
        word_list(c1) == word_list(c2),
{
}

} // verus!
