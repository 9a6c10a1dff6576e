//! Lowercase, Unicode-aware tokenizer: splits on any non-alphanumeric
//! character. No stemming and no stopword removal.
use vstd::prelude::*;
use crate::text::{
    ascii_alphanumeric, chars_of, is_word_char, lowercase_of, push_char, string_of, to_lowercase,
    word_char,
};

verus! {

/// The pieces of `s` between its non-alphanumeric characters, empty pieces
/// included (there is always at least one piece).
pub open spec fn pieces(s: Seq<char>) -> Seq<Seq<char>>
    decreases s.len(),
{
    if s.len() == 0 {
        seq![Seq::empty()]
    } else {
        let p = pieces(s.drop_last());
        if word_char(s.last()) {
            p.update(p.len() - 1, p.last().push(s.last()))
        } else {
            p.push(Seq::empty())
        }
    }
}

/// `p` without its empty members, in order.
pub open spec fn drop_empty(p: Seq<Seq<char>>) -> Seq<Seq<char>>
    decreases p.len(),
{
    if p.len() == 0 {
        p
    } else if p.last().len() > 0 {
        drop_empty(p.drop_last()).push(p.last())
    } else {
        drop_empty(p.drop_last())
    }
}

/// The words of `s`: its maximal runs of alphanumeric characters, in order.
pub open spec fn words(s: Seq<char>) -> Seq<Seq<char>> {
    drop_empty(pieces(s))
}

/// The characters of each string of `v`.
pub open spec fn views(v: Seq<String>) -> Seq<Seq<char>> {
    v.map_values(|t: String| t@)
}

/// The alphanumeric characters of `s`, in order.
pub open spec fn alphanumerics(s: Seq<char>) -> Seq<char>
    decreases s.len(),
{
    if s.len() == 0 {
        s
    } else if word_char(s.last()) {
        alphanumerics(s.drop_last()).push(s.last())
    } else {
        alphanumerics(s.drop_last())
    }
}

/// What `truncate_chars` gives for `s` and `n`.
pub open spec fn truncated(s: Seq<char>, n: nat) -> Seq<char> {
    if s.len() > n {
        s.take(n as int).push('…')
    } else {
        s
    }
}

proof fn lemma_pieces_nonempty(s: Seq<char>)
    ensures
        pieces(s).len() >= 1,
    decreases s.len(),
{
    if s.len() > 0 {
        lemma_pieces_nonempty(s.drop_last());
    }
}

proof fn lemma_drop_empty_push(p: Seq<Seq<char>>, w: Seq<char>)
    ensures
        drop_empty(p.push(w)) == (if w.len() > 0 { drop_empty(p).push(w) } else { drop_empty(p) }),
{
    assert(p.push(w).drop_last() =~= p);
}


/// Every piece of `s` is made of alphanumeric characters, and the pieces
/// joined back together are the alphanumeric characters of `s`.
proof fn lemma_pieces_alphanumeric(s: Seq<char>)
    ensures
        forall|i: int, j: int|
            0 <= i < pieces(s).len() && 0 <= j < pieces(s)[i].len() ==> word_char(
                #[trigger] pieces(s)[i][j],
            ),
        pieces(s).flatten_alt() == alphanumerics(s),
    decreases s.len(),
{
    if s.len() == 0 {
        let p = pieces(s);
        assert(p.drop_last() =~= Seq::<Seq<char>>::empty());
        assert(p.flatten_alt() == p.drop_last().flatten_alt() + p.last());
        assert(p.flatten_alt() =~= Seq::<char>::empty());
    } else {
        let t = s.drop_last();
        let p = pieces(t);
        lemma_pieces_alphanumeric(t);
        lemma_pieces_nonempty(t);
        let c = s.last();
        if word_char(c) {
            let q = p.update(p.len() - 1, p.last().push(c));
            assert(q.drop_last() =~= p.drop_last());
            assert(p.flatten_alt() == p.drop_last().flatten_alt() + p.last());
            assert(q.flatten_alt() == q.drop_last().flatten_alt() + q.last());
            assert(q.flatten_alt() =~= p.flatten_alt().push(c));
            assert forall|i: int, j: int| 0 <= i < q.len() && 0 <= j < q[i].len() implies word_char(
                #[trigger] q[i][j],
            ) by {
                if i == q.len() - 1 && j == q[i].len() - 1 {
                } else {
                    assert(q[i][j] == p[i][j]);
                }
            }
        } else {
            let q = p.push(Seq::empty());
            assert(q.drop_last() =~= p);
            assert(q.flatten_alt() =~= p.flatten_alt());
            assert forall|i: int, j: int| 0 <= i < q.len() && 0 <= j < q[i].len() implies word_char(
                #[trigger] q[i][j],
            ) by {
                assert(q[i][j] == p[i][j]);
            }
        }
    }
}

proof fn lemma_drop_empty_keeps(p: Seq<Seq<char>>)
    ensures
        drop_empty(p).flatten_alt() == p.flatten_alt(),
        forall|i: int| 0 <= i < drop_empty(p).len() ==> (#[trigger] drop_empty(p)[i]).len() > 0,
        forall|i: int| 0 <= i < drop_empty(p).len() ==> p.contains(#[trigger] drop_empty(p)[i]),
    decreases p.len(),
{
    if p.len() > 0 {
        let d = drop_empty(p.drop_last());
        lemma_drop_empty_keeps(p.drop_last());
        assert(p.flatten_alt() == p.drop_last().flatten_alt() + p.last());
        if p.last().len() > 0 {
            let e = d.push(p.last());
            assert(e.drop_last() =~= d);
            assert(e.flatten_alt() == d.flatten_alt() + p.last());
            assert forall|i: int| 0 <= i < e.len() implies p.contains(#[trigger] e[i]) by {
                if i == e.len() - 1 {
                    assert(p[p.len() - 1] == e[i]);
                } else {
                    assert(p.drop_last().contains(d[i]));
                    let k = choose|k: int| 0 <= k < p.drop_last().len() && p.drop_last()[k] == d[i];
                    assert(p[k] == e[i]);
                }
            }
        } else {
            assert(p.last() =~= Seq::<char>::empty());
            assert(p.flatten_alt() =~= p.drop_last().flatten_alt());
            assert forall|i: int| 0 <= i < d.len() implies p.contains(#[trigger] d[i]) by {
                assert(p.drop_last().contains(d[i]));
                let k = choose|k: int| 0 <= k < p.drop_last().len() && p.drop_last()[k] == d[i];
                assert(p[k] == d[i]);
            }
        }
    }
}

/// The tokenizer's law: every word of `s` is a non-empty run of
/// alphanumeric characters, and the words joined back together are exactly
/// the alphanumeric characters of `s`, in order (nothing is lost, nothing
/// is added, no separator survives).
pub proof fn lemma_words_are_alphanumeric_runs(s: Seq<char>)
    ensures
        forall|i: int| 0 <= i < words(s).len() ==> (#[trigger] words(s)[i]).len() > 0,
        forall|i: int, j: int|
            0 <= i < words(s).len() && 0 <= j < words(s)[i].len() ==> word_char(
                #[trigger] words(s)[i][j],
            ),
        words(s).flatten() == alphanumerics(s),
{
    lemma_pieces_alphanumeric(s);
    lemma_drop_empty_keeps(pieces(s));
    words(s).lemma_flatten_and_flatten_alt_are_equivalent();
    assert forall|i: int, j: int|
        0 <= i < words(s).len() && 0 <= j < words(s)[i].len() implies word_char(
        #[trigger] words(s)[i][j],
    ) by {
        let w = words(s)[i];
        assert(pieces(s).contains(w));
        let k = choose|k: int| 0 <= k < pieces(s).len() && pieces(s)[k] == w;
        assert(pieces(s)[k][j] == w[j]);
    }
}

/// The words `ws` joined into one text with `c` between each two.
pub open spec fn join_with(ws: Seq<Seq<char>>, c: char) -> Seq<char>
    decreases ws.len(),
{
    if ws.len() == 0 {
        Seq::empty()
    } else if ws.len() == 1 {
        ws[0]
    } else {
        join_with(ws.drop_last(), c) + seq![c] + ws.last()
    }
}

/// Once the last piece of `z` is empty, the pieces of `z + y` are those of
/// `z` before it followed by those of `y`.
proof fn lemma_pieces_append(z: Seq<char>, y: Seq<char>)
    requires
        pieces(z).last().len() == 0,
    ensures
        pieces(z + y) == pieces(z).drop_last() + pieces(y),
    decreases y.len(),
{
    lemma_pieces_nonempty(z);
    let d = pieces(z).drop_last();
    if y.len() == 0 {
        assert(z + y =~= z);
        assert(pieces(y) =~= seq![Seq::<char>::empty()]);
        assert(pieces(z).last() =~= Seq::<char>::empty());
        assert(d + pieces(y) =~= pieces(z));
    } else {
        let y0 = y.drop_last();
        let c = y.last();
        lemma_pieces_append(z, y0);
        lemma_pieces_nonempty(y0);
        assert((z + y).drop_last() =~= z + y0);
        assert((z + y).last() == c);
        let q0 = pieces(y0);
        let p0 = pieces(z + y0);
        assert(p0 == d + q0);
        if word_char(c) {
            assert(p0.last() == q0.last());
            assert(p0.update(p0.len() - 1, p0.last().push(c)) =~= d + q0.update(
                q0.len() - 1,
                q0.last().push(c),
            ));
        } else {
            assert(p0.push(Seq::empty()) =~= d + q0.push(Seq::empty()));
        }
    }
}

/// Dropping the empty members of two sequences one after the other is
/// dropping them from each.
proof fn lemma_drop_empty_append(a: Seq<Seq<char>>, b: Seq<Seq<char>>)
    ensures
        drop_empty(a + b) == drop_empty(a) + drop_empty(b),
    decreases b.len(),
{
    if b.len() == 0 {
        assert(a + b =~= a);
        assert(drop_empty(a) + drop_empty(b) =~= drop_empty(a));
    } else {
        let b0 = b.drop_last();
        lemma_drop_empty_append(a, b0);
        assert((a + b).drop_last() =~= a + b0);
        assert((a + b).last() == b.last());
        if b.last().len() > 0 {
            assert(drop_empty(a) + drop_empty(b0).push(b.last()) =~= (drop_empty(a) + drop_empty(
                b0,
            )).push(b.last()));
        }
    }
}

/// A text split at a non-alphanumeric character `c`: the words of
/// `x`, `c`, `y` are the words of `x` followed by those of `y` (no word
/// runs across `c`).
pub proof fn lemma_words_split_at_separator(x: Seq<char>, c: char, y: Seq<char>)
    requires
        !word_char(c),
    ensures
        words(x + seq![c] + y) == words(x) + words(y),
{
    let z = x + seq![c];
    assert(z.drop_last() =~= x);
    assert(z.last() == c);
    assert(pieces(z) == pieces(x).push(Seq::empty()));
    assert(pieces(z).drop_last() =~= pieces(x));
    lemma_pieces_append(z, y);
    lemma_drop_empty_append(pieces(x), pieces(y));
}

/// A non-empty run of alphanumeric characters is one word.
proof fn lemma_words_of_word(w: Seq<char>)
    requires
        w.len() > 0,
        forall|j: int| 0 <= j < w.len() ==> word_char(#[trigger] w[j]),
    ensures
        pieces(w) == seq![w],
        words(w) == seq![w],
    decreases w.len(),
{
    let w0 = w.drop_last();
    assert(w0.push(w.last()) =~= w);
    assert(w[w.len() - 1] == w.last());
    let p0 = pieces(w0);
    if w0.len() == 0 {
        assert(p0 == seq![Seq::<char>::empty()]);
        assert(p0.last().push(w.last()) =~= w);
    } else {
        assert forall|j: int| 0 <= j < w0.len() implies word_char(#[trigger] w0[j]) by {
            assert(w0[j] == w[j]);
        }
        lemma_words_of_word(w0);
        assert(p0.last().push(w.last()) =~= w);
    }
    assert(pieces(w) == p0.update(0, p0.last().push(w.last())));
    assert(pieces(w) =~= seq![w]);
    assert(seq![w].drop_last() =~= Seq::<Seq<char>>::empty());
    assert(seq![w].last() == w);
    assert(drop_empty(Seq::<Seq<char>>::empty()) == Seq::<Seq<char>>::empty());
    assert(Seq::<Seq<char>>::empty().push(w) =~= seq![w]);
}

/// Words joined back with a non-alphanumeric character between each two
/// split back into the same words: for non-empty alphanumeric runs `ws`,
/// `words(join_with(ws, c)) == ws`. In particular the words of `s`, so
/// joined, give the words of `s` again.
pub proof fn lemma_words_of_joined(ws: Seq<Seq<char>>, c: char)
    requires
        !word_char(c),
        forall|i: int| 0 <= i < ws.len() ==> (#[trigger] ws[i]).len() > 0,
        forall|i: int, j: int| 0 <= i < ws.len() && 0 <= j < ws[i].len() ==> word_char(#[trigger] ws[i][j]),
    ensures
        words(join_with(ws, c)) == ws,
    decreases ws.len(),
{
    if ws.len() == 0 {
        let e = Seq::<char>::empty();
        assert(pieces(e) == seq![e]);
        assert(seq![e].drop_last() =~= Seq::<Seq<char>>::empty());
        assert(seq![e].last() == e);
        assert(drop_empty(Seq::<Seq<char>>::empty()) == Seq::<Seq<char>>::empty());
        assert(ws =~= Seq::<Seq<char>>::empty());
    } else if ws.len() == 1 {
        assert forall|j: int| 0 <= j < ws[0].len() implies word_char(#[trigger] ws[0][j]) by {
            assert(word_char(ws[0][j]));
        }
        lemma_words_of_word(ws[0]);
        assert(ws =~= seq![ws[0]]);
    } else {
        let w0 = ws.drop_last();
        let l = ws.last();
        assert forall|i: int| 0 <= i < w0.len() implies (#[trigger] w0[i]).len() > 0 by {
            assert(w0[i] == ws[i]);
        }
        assert forall|i: int, j: int| 0 <= i < w0.len() && 0 <= j < w0[i].len() implies word_char(
            #[trigger] w0[i][j],
        ) by {
            assert(w0[i] == ws[i]);
            assert(word_char(ws[i][j]));
        }
        lemma_words_of_joined(w0, c);
        assert(ws[ws.len() - 1] == l);
        assert forall|j: int| 0 <= j < l.len() implies word_char(#[trigger] l[j]) by {
            assert(word_char(ws[ws.len() - 1][j]));
        }
        lemma_words_of_word(l);
        lemma_words_split_at_separator(join_with(w0, c), c, l);
        assert(w0 + seq![l] =~= ws);
    }
}

/// The words of `s`, joined with a non-alphanumeric character between each
/// two, split back into the words of `s`.
pub proof fn lemma_words_rejoined(s: Seq<char>, c: char)
    requires
        !word_char(c),
    ensures
        words(join_with(words(s), c)) == words(s),
{
    lemma_words_are_alphanumeric_runs(s);
    lemma_words_of_joined(words(s), c);
}

/// Words hold no ASCII punctuation, space or control character: every
/// ASCII character of a word of `s` is an ASCII letter or digit, so no
/// word holds '.', ',', '!', '?', ' ' or the like, and a text split at any
/// ASCII character that is not a letter or digit has as words exactly the
/// words of its two sides.
pub proof fn lemma_words_hold_no_ascii_punctuation(s: Seq<char>)
    ensures
        forall|i: int, j: int|
            0 <= i < words(s).len() && 0 <= j < words(s)[i].len() && (words(s)[i][j] as u32) < 128
                ==> ascii_alphanumeric(#[trigger] words(s)[i][j]),
        forall|i: int| 0 <= i < words(s).len() ==> {
            &&& !(#[trigger] words(s)[i]).contains('.')
            &&& !words(s)[i].contains(',')
            &&& !words(s)[i].contains('!')
            &&& !words(s)[i].contains('?')
            &&& !words(s)[i].contains(' ')
        },
        forall|x: Seq<char>, c: char, y: Seq<char>|
            (c as u32) < 128 && !ascii_alphanumeric(c) ==> #[trigger] words(x + seq![c] + y) == words(x)
                + words(y),
{
    lemma_words_are_alphanumeric_runs(s);
    assert forall|i: int| 0 <= i < words(s).len() implies {
        &&& !(#[trigger] words(s)[i]).contains('.')
        &&& !words(s)[i].contains(',')
        &&& !words(s)[i].contains('!')
        &&& !words(s)[i].contains('?')
        &&& !words(s)[i].contains(' ')
    } by {
        let w = words(s)[i];
        assert forall|j: int| 0 <= j < w.len() implies word_char(#[trigger] w[j]) by {
            assert(word_char(words(s)[i][j]));
        }
    }
    assert forall|x: Seq<char>, c: char, y: Seq<char>|
        (c as u32) < 128 && !ascii_alphanumeric(c) implies #[trigger] words(x + seq![c] + y) == words(x)
        + words(y) by {
        lemma_words_split_at_separator(x, c, y);
    }
}

/// Lowercase `text` and split it into its words.
pub fn tokenize(text: &str) -> (tokens: Vec<String>)
    ensures
        views(tokens@) == words(lowercase_of(text@)),
{
    let lower = to_lowercase(text);
    let cs = chars_of(lower.as_str());
    let ghost s = cs@;
    let mut tokens: Vec<String> = Vec::new();
    let mut current = String::new();
    let mut i: usize = 0;
    proof {
        assert(s.take(0) =~= Seq::<char>::empty());
        assert(pieces(s.take(0)).drop_last() =~= Seq::<Seq<char>>::empty());
        assert(views(tokens@) =~= Seq::<Seq<char>>::empty());
    }
    while i < cs.len()
        invariant
            s == cs@,
            i <= cs@.len(),
            views(tokens@) == drop_empty(pieces(s.take(i as int)).drop_last()),
            current@ == pieces(s.take(i as int)).last(),
        decreases cs@.len() - i,
    {
        let c = cs[i];
        let ghost p = pieces(s.take(i as int));
        proof {
            lemma_pieces_nonempty(s.take(i as int));
            assert(s.take(i + 1).drop_last() =~= s.take(i as int));
            assert(s.take(i + 1).last() == c);
        }
        if is_word_char(c) {
            push_char(&mut current, c);
            proof {
                let q = pieces(s.take(i + 1));
                assert(q == p.update(p.len() - 1, p.last().push(c)));
                assert(q.drop_last() =~= p.drop_last());
            }
        } else {
            proof {
                let q = pieces(s.take(i + 1));
                assert(q == p.push(Seq::empty()));
                assert(q.drop_last() =~= p);
                assert(p =~= p.drop_last().push(p.last()));
                lemma_drop_empty_push(p.drop_last(), p.last());
            }
            if !current.as_str().is_empty() {
                let ghost old_tokens = tokens@;
                tokens.push(current);
                proof {
                    assert(views(tokens@) =~= views(old_tokens).push(p.last()));
                }
            }
            current = String::new();
        }
        i = i + 1;
    }
    proof {
        assert(s.take(i as int) =~= s);
        let p = pieces(s);
        lemma_pieces_nonempty(s);
        assert(p =~= p.drop_last().push(p.last()));
        lemma_drop_empty_push(p.drop_last(), p.last());
    }
    if !current.as_str().is_empty() {
        let ghost old_tokens = tokens@;
        tokens.push(current);
        proof {
            assert(views(tokens@) =~= views(old_tokens).push(pieces(s).last()));
        }
    }
    tokens
}

/// Truncate a string to at most `n` characters, appending an ellipsis if
/// it was cut short.
pub fn truncate_chars(s: &str, n: usize) -> (r: String)
    ensures
        r@ == truncated(s@, n as nat),
{
    let cs = chars_of(s);
    if cs.len() > n {
        let mut t = string_of(&cs, 0, n);
        push_char(&mut t, '…');
        t
    } else {
        let t = string_of(&cs, 0, cs.len());
        assert(cs@.subrange(0, cs@.len() as int) =~= s@);
        t
    }
}

} // verus!
