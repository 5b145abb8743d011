//! The tokenizer: a line of text is cut into its words, the maximal runs of
//! characters that are not whitespace.

use vstd::prelude::*;
use vstd::string::StrSliceExecFns;
use vstd::string::StringExecFns;

verus! {

/// `c` is whitespace: a character with the Unicode property `White_Space`.
pub open spec fn is_space(c: char) -> bool {
    let u = c as u32;
    ||| 0x09 <= u <= 0x0d
    ||| u == 0x20
    ||| u == 0x85
    ||| u == 0xa0
    ||| u == 0x1680
    ||| 0x2000 <= u <= 0x200a
    ||| u == 0x2028
    ||| u == 0x2029
    ||| u == 0x202f
    ||| u == 0x205f
    ||| u == 0x3000
}

/// The state of a left-to-right scan: the words that are complete, and the
/// characters of the word that is still open (empty between words).
pub struct Scan {
    pub done: Seq<Seq<char>>,
    pub word: Seq<char>,
}

/// The scan before the first character.
pub open spec fn scan_start() -> Scan {
    Scan { done: Seq::empty(), word: Seq::empty() }
}

/// The scan after one more character: whitespace closes the open word, any
/// other character extends it.
pub open spec fn feed(st: Scan, c: char) -> Scan {
    if is_space(c) {
        if st.word.len() > 0 {
            Scan { done: st.done.push(st.word), word: Seq::empty() }
        } else {
            st
        }
    } else {
        Scan { done: st.done, word: st.word.push(c) }
    }
}

/// The scan after the characters of `s`, one after the other.
pub open spec fn scan(st: Scan, s: Seq<char>) -> Scan
    decreases s.len(),
{
    if s.len() == 0 {
        st
    } else {
        feed(scan(st, s.drop_last()), s.last())
    }
}

/// The words of a finished scan: an open word counts.
pub open spec fn finish(st: Scan) -> Seq<Seq<char>> {
    if st.word.len() > 0 {
        st.done.push(st.word)
    } else {
        st.done
    }
}

/// The tokens of a text: its maximal runs of characters that are not
/// whitespace, from left to right.
pub open spec fn tokens_of(s: Seq<char>) -> Seq<Seq<char>> {
    finish(scan(scan_start(), s))
}

/// The character sequences of a list of string slices.
pub open spec fn words(tokens: Seq<&str>) -> Seq<Seq<char>> {
    Seq::new(tokens.len(), |i: int| tokens[i]@)
}

/// Tells whether `c` is whitespace.
pub fn is_whitespace(c: char) -> (b: bool)
    ensures
        b == is_space(c),
{
    let u: u32 = c as u32;
    (0x09 <= u && u <= 0x0d) || u == 0x20 || u == 0x85 || u == 0xa0 || u == 0x1680 || (0x2000 <= u
        && u <= 0x200a) || u == 0x2028 || u == 0x2029 || u == 0x202f || u == 0x205f || u == 0x3000
}

/// Splits a text into its tokens, each a slice of the text.
pub fn tokenize(input: &str) -> (tokens: Vec<&str>)
    ensures
        words(tokens@) == tokens_of(input@),
{
    let total = input.unicode_len();
    let mut tokens: Vec<&str> = Vec::new();
    let mut start: Option<usize> = None;
    let mut i: usize = 0;
    let ghost mut word: Seq<char> = Seq::empty();
    assert(input@.take(0) =~= Seq::<char>::empty());
    assert(words(tokens@) =~= Seq::<Seq<char>>::empty());
    for c in it: input.chars()
        invariant
            i == it.index(),
            it.seq() == input@,
            total == input@.len(),
            i <= total,
            start matches Some(s) ==> s < i && word == input@.subrange(s as int, i as int),
            start is None ==> word.len() == 0,
            scan(scan_start(), input@.take(i as int)) == (Scan { done: words(tokens@), word }),
    {
        let ghost before = scan(scan_start(), input@.take(i as int));
        proof {
            let longer = input@.take(i + 1);
            assert(longer.drop_last() =~= input@.take(i as int));
            assert(longer.last() == c);
            assert(scan(scan_start(), longer) == feed(before, c));
        }
        if is_whitespace(c) {
            if let Some(s) = start {
                let token = input.substring_char(s, i);
                let ghost old_tokens = tokens@;
                tokens.push(token);
                assert(words(tokens@) =~= words(old_tokens).push(word));
                start = None;
                proof {
                    word = Seq::empty();
                }
            }
        } else {
            proof {
                word = word.push(c);
            }
            if start.is_none() {
                start = Some(i);
            }
            assert(word =~= input@.subrange(start->0 as int, i + 1));
        }
        i += 1;
    }
    assert(input@.take(i as int) =~= input@);
    if let Some(s) = start {
        let token = input.substring_char(s, i);
        let ghost old_tokens = tokens@;
        tokens.push(token);
        assert(words(tokens@) =~= words(old_tokens).push(word));
    }
    tokens
}

/// How `std` writes a list of strings for debugging: the result of
/// formatting the list with `{:?}`.
pub uninterp spec fn debug_text(tokens: Seq<Seq<char>>) -> Seq<char>;

/// Formats a list of tokens with `format!("{:?}", ..)`, the `Debug`
/// rendering of a vector of string slices. The contract only gives that
/// rendering its name, `debug_text`: it is a function of the tokens alone.
#[verifier::external_body]
fn debug_list(tokens: &Vec<&str>) -> (text: String)
    ensures
        text@ == debug_text(words(tokens@)),
{
    format!("{:?}", tokens)
}

/// The characters of `"Line: "`.
pub open spec fn line_prefix() -> Seq<char> {
    seq!['L', 'i', 'n', 'e', ':', ' ']
}

/// Labels a listing as a line: `"Line: "` followed by the listing.
pub fn line_report(listing: &str) -> (report: String)
    ensures
        report@ == line_prefix() + listing@,
{
    proof {
        reveal_strlit("Line: ");
    }
    let mut report = String::from_str("Line: ");
    assert(report@ =~= line_prefix());
    report.append(listing);
    report
}

/// Reports how a line of input splits into tokens: `"Line: "` followed by
/// the debug listing of the tokens.
pub fn read(input: &str) -> (report: String)
    ensures
        report@ == line_prefix() + debug_text(tokens_of(input@)),
{
    let tokens = tokenize(input);
    let listing = debug_list(&tokens);
    line_report(listing.as_str())
}

} // verus!
