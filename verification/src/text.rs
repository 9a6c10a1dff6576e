//! Character-level helpers shared by the tokenizer, the snippet finder and
//! the file sniffer. The Unicode tables (case mapping, alphanumeric and
//! whitespace classes) are std's; each is reached through one small wrapper
//! whose result is given a name.
use vstd::prelude::*;

verus! {

broadcast use vstd::string::group_string_axioms;

/// The characters of `str::to_lowercase(s)` for a string with characters `s`.
pub uninterp spec fn lowercase_of(s: Seq<char>) -> Seq<char>;

/// Whether `char::is_alphanumeric` holds of `c`.
pub uninterp spec fn alphanumeric(c: char) -> bool;

/// Whether `char::is_whitespace` holds of `c`.
pub uninterp spec fn whitespace(c: char) -> bool;

/// Calls `str::to_lowercase`. Its result depends on the argument alone
/// (Unicode's case mapping, with no locale); the contract names it and
/// says nothing more of it.
#[verifier::external_body]
pub(crate) fn to_lowercase(s: &str) -> (r: String)
    ensures
        r@ == lowercase_of(s@),
{
    s.to_lowercase()
}

/// Calls `char::is_alphanumeric` (Unicode's Alphabetic or Numeric
/// property); the contract names the answer and says nothing more of it.
#[verifier::external_body]
pub(crate) fn is_alphanumeric(c: char) -> (b: bool)
    ensures
        b == alphanumeric(c),
{
    c.is_alphanumeric()
}

/// Whether `c` is an ASCII letter or digit (`'0'..='9'`, `'A'..='Z'`,
/// `'a'..='z'`): what `char::is_ascii_alphanumeric` tests.
pub open spec fn ascii_alphanumeric(c: char) -> bool {
    (48 <= c as u32 <= 57) || (65 <= c as u32 <= 90) || (97 <= c as u32 <= 122)
}

/// Whether `c` belongs to a word, that is, has Unicode's Alphabetic or
/// Numeric property. Among ASCII characters these are exactly the ASCII
/// letters and digits, so punctuation, spaces and control characters never
/// belong to a word; for the other characters the answer is
/// `char::is_alphanumeric`'s.
pub open spec fn word_char(c: char) -> bool {
    if (c as u32) < 128 {
        ascii_alphanumeric(c)
    } else {
        alphanumeric(c)
    }
}

/// Whether `c` belongs to a word (`word_char`): ASCII characters are
/// decided here, the others by `char::is_alphanumeric`.
pub(crate) fn is_word_char(c: char) -> (b: bool)
    ensures
        b == word_char(c),
{
    let u = c as u32;
    if u < 128 {
        (48 <= u && u <= 57) || (65 <= u && u <= 90) || (97 <= u && u <= 122)
    } else {
        is_alphanumeric(c)
    }
}

/// Calls `char::is_whitespace` (Unicode's White_Space property); the
/// contract names the answer and says nothing more of it.
#[verifier::external_body]
pub(crate) fn is_whitespace(c: char) -> (b: bool)
    ensures
        b == whitespace(c),
{
    c.is_whitespace()
}

/// Calls `String::push`: the string afterwards is the old one with `c`
/// appended.
#[verifier::external_body]
pub(crate) fn push_char(s: &mut String, c: char)
    ensures
        final(s)@ == old(s)@.push(c),
{
    s.push(c);
}


/// Calls `String::pop`: the string afterwards is the old one without its
/// last character (unchanged if it was empty).
#[verifier::external_body]
pub(crate) fn pop_char(s: &mut String)
    ensures
        final(s)@ == (if old(s)@.len() > 0 {
            old(s)@.drop_last()
        } else {
            old(s)@
        }),
{
    s.pop();
}

/// The characters of `s`, in order.
pub fn chars_of(s: &str) -> (r: Vec<char>)
    ensures
        r@ == s@,
{
    let mut v: Vec<char> = Vec::new();
    for c in it: s.chars()
        invariant
            v@ == it.seq().take(it.index() as int),
    {
        v.push(c);
    }
    assert(v@ == s@);
    v
}

/// The string made of the characters `cs[from..to]`.
pub fn string_of(cs: &Vec<char>, from: usize, to: usize) -> (r: String)
    requires
        from <= to <= cs@.len(),
    ensures
        r@ == cs@.subrange(from as int, to as int),
{
    let mut out = String::new();
    let mut i = from;
    while i < to
        invariant
            from <= i <= to <= cs@.len(),
            out@ == cs@.subrange(from as int, i as int),
        decreases to - i,
    {
        push_char(&mut out, cs[i]);
        i = i + 1;
        assert(out@ =~= cs@.subrange(from as int, i as int));
    }
    out
}

/// The position of the first line feed in `s` (`s.len()` if there is none).
pub open spec fn newline_at(s: Seq<char>) -> nat
    decreases s.len(),
{
    if s.len() == 0 {
        0
    } else if s[0] == '\n' {
        0
    } else {
        1 + newline_at(s.drop_first())
    }
}

/// `line` without one trailing carriage return.
pub open spec fn strip_cr(line: Seq<char>) -> Seq<char> {
    if line.len() > 0 && line.last() == '\r' {
        line.drop_last()
    } else {
        line
    }
}

/// The lines of `s` as `str::lines` gives them: split at each line feed,
/// a carriage return just before the line feed dropped, no line after a
/// final line feed.
pub open spec fn lines_of(s: Seq<char>) -> Seq<Seq<char>>
    decreases s.len(),
{
    if s.len() == 0 {
        Seq::empty()
    } else {
        let k = newline_at(s);
        if k >= s.len() {
            seq![s]
        } else {
            seq![strip_cr(s.take(k as int))] + lines_of(s.skip(k + 1int))
        }
    }
}

/// `s` without its leading whitespace.
pub open spec fn trim_start(s: Seq<char>) -> Seq<char>
    decreases s.len(),
{
    if s.len() > 0 && whitespace(s[0]) {
        trim_start(s.drop_first())
    } else {
        s
    }
}

/// `s` without its trailing whitespace.
pub open spec fn trim_end(s: Seq<char>) -> Seq<char>
    decreases s.len(),
{
    if s.len() > 0 && whitespace(s.last()) {
        trim_end(s.drop_last())
    } else {
        s
    }
}

/// `s` without leading and trailing whitespace, as `str::trim` gives it.
pub open spec fn trimmed(s: Seq<char>) -> Seq<char> {
    trim_end(trim_start(s))
}

/// Whether `needle` occurs in `hay` as a contiguous run.
pub open spec fn contains_run(hay: Seq<char>, needle: Seq<char>) -> bool {
    exists|i: int|
        0 <= i <= hay.len() - needle.len() && #[trigger] hay.subrange(i, i + needle.len()) == needle
}

pub proof fn lemma_newline_at_bound(s: Seq<char>)
    ensures
        newline_at(s) <= s.len(),
        newline_at(s) < s.len() ==> s[newline_at(s) as int] == '\n',
        forall|j: int| 0 <= j < newline_at(s) ==> s[j] != '\n',
    decreases s.len(),
{
    if s.len() > 0 && s[0] != '\n' {
        lemma_newline_at_bound(s.drop_first());
        assert forall|j: int| 0 <= j < newline_at(s) implies s[j] != '\n' by {
            if j > 0 {
                assert(s.drop_first()[j - 1] == s[j]);
            }
        }
    }
}

/// The position of the first line feed in `cs[from..]`, as an index into
/// `cs` (`cs.len()` if there is none).
pub fn find_newline(cs: &Vec<char>, from: usize) -> (k: usize)
    requires
        from <= cs@.len(),
    ensures
        k == from + newline_at(cs@.skip(from as int)),
{
    let mut j = from;
    while j < cs.len() && cs[j] != '\n'
        invariant
            from <= j <= cs@.len(),
            newline_at(cs@.skip(from as int)) == (j - from) + newline_at(cs@.skip(j as int)),
        decreases cs@.len() - j,
    {
        assert(cs@.skip(j as int).drop_first() =~= cs@.skip(j + 1));
        assert(cs@.skip(j as int)[0] == cs@[j as int]);
        j = j + 1;
    }
    if j < cs.len() {
        assert(cs@.skip(j as int)[0] == cs@[j as int]);
    }
    j
}

/// Whether `needle` occurs in `hay` as a contiguous run.
pub fn has_run(hay: &Vec<char>, needle: &Vec<char>) -> (r: bool)
    ensures
        r == contains_run(hay@, needle@),
{
    if needle.len() > hay.len() {
        return false;
    }
    if needle.len() == 0 {
        assert(hay@.subrange(0int, 0int + needle@.len()) =~= needle@);
        return true;
    }
    let last = hay.len() - needle.len();
    let mut i: usize = 0;
    while i <= last
        invariant
            last == hay@.len() - needle@.len(),
            1 <= needle@.len() <= hay@.len() <= usize::MAX,
            i <= last + 1,
            forall|q: int| 0 <= q < i ==> #[trigger] hay@.subrange(q, q + needle@.len()) != needle@,
        decreases last + 1 - i,
    {
        let mut j: usize = 0;
        let mut same = true;
        while j < needle.len()
            invariant
                i <= last,
                last == hay@.len() - needle@.len(),
                1 <= needle@.len() <= hay@.len() <= usize::MAX,
                j <= needle@.len(),
                same == (forall|q: int| 0 <= q < j ==> hay@[i + q] == needle@[q]),
            decreases needle@.len() - j,
        {
            assert(i + j < hay@.len());
            if hay[i + j] != needle[j] {
                same = false;
            }
            j = j + 1;
        }
        if same {
            assert(hay@.subrange(i as int, i + needle@.len()) =~= needle@);
            return true;
        }
        proof {
            let q = choose|q: int| 0 <= q < j && hay@[i + q] != needle@[q];
            assert(hay@.subrange(i as int, i + needle@.len())[q] != needle@[q]);
        }
        assert(i < last + 1);
        i = i + 1;
    }
    false
}

/// The characters of `cs[from..to]` without leading and trailing
/// whitespace.
pub fn trim_range(cs: &Vec<char>, from: usize, to: usize) -> (r: String)
    requires
        from <= to <= cs@.len(),
    ensures
        r@ == trimmed(cs@.subrange(from as int, to as int)),
{
    let ghost s = cs@.subrange(from as int, to as int);
    let mut a = from;
    while a < to && is_whitespace(cs[a])
        invariant
            from <= a <= to <= cs@.len(),
            trim_start(s) == trim_start(cs@.subrange(a as int, to as int)),
        decreases to - a,
    {
        assert(cs@.subrange(a as int, to as int).drop_first() =~= cs@.subrange(a + 1, to as int));
        assert(cs@.subrange(a as int, to as int)[0] == cs@[a as int]);
        a = a + 1;
    }
    if a < to {
        assert(cs@.subrange(a as int, to as int)[0] == cs@[a as int]);
    }
    let ghost t = cs@.subrange(a as int, to as int);
    assert(trim_start(s) == t);
    let mut b = to;
    while b > a && is_whitespace(cs[b - 1])
        invariant
            from <= a <= b <= to <= cs@.len(),
            t == cs@.subrange(a as int, to as int),
            trim_end(t) == trim_end(cs@.subrange(a as int, b as int)),
        decreases b - a,
    {
        assert(cs@.subrange(a as int, b as int).drop_last() =~= cs@.subrange(a as int, b - 1));
        assert(cs@.subrange(a as int, b as int).last() == cs@[b - 1]);
        b = b - 1;
    }
    if b > a {
        assert(cs@.subrange(a as int, b as int).last() == cs@[b - 1]);
    }
    string_of(cs, a, b)
}

} // verus!
