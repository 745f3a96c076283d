//! Turning the training text into documents, the character vocabulary, and
//! token sequences.

use vstd::prelude::*;

verus! {

/// The Unicode `White_Space` property, which `char::is_whitespace` and
/// `str::trim` go by.
pub open spec fn is_white_space(c: char) -> bool {
    ||| '\u{9}' <= c <= '\u{d}'
    ||| c == ' '
    ||| c == '\u{85}'
    ||| c == '\u{a0}'
    ||| c == '\u{1680}'
    ||| '\u{2000}' <= c <= '\u{200a}'
    ||| c == '\u{2028}'
    ||| c == '\u{2029}'
    ||| c == '\u{202f}'
    ||| c == '\u{205f}'
    ||| c == '\u{3000}'
}

/// Whether `c` has the Unicode `White_Space` property.
pub fn white_space(c: char) -> (b: bool)
    ensures
        b == is_white_space(c),
{
    ('\u{9}' <= c && c <= '\u{d}') || c == ' ' || c == '\u{85}' || c == '\u{a0}' || c == '\u{1680}'
        || ('\u{2000}' <= c && c <= '\u{200a}') || c == '\u{2028}' || c == '\u{2029}'
        || c == '\u{202f}' || c == '\u{205f}' || c == '\u{3000}'
}

/// Number of white-space characters at the start of `s`.
pub open spec fn leading_ws(s: Seq<char>) -> nat
    decreases s.len(),
{
    if s.len() > 0 && is_white_space(s[0]) {
        1 + leading_ws(s.drop_first())
    } else {
        0
    }
}

/// Number of white-space characters at the end of `s`.
pub open spec fn trailing_ws(s: Seq<char>) -> nat
    decreases s.len(),
{
    if s.len() > 0 && is_white_space(s.last()) {
        1 + trailing_ws(s.drop_last())
    } else {
        0
    }
}

/// `s` without its leading and trailing white space.
pub open spec fn trim(s: Seq<char>) -> Seq<char> {
    if leading_ws(s) == s.len() {
        Seq::empty()
    } else {
        s.subrange(leading_ws(s) as int, s.len() - trailing_ws(s))
    }
}

/// The pieces of `t` between line feeds (one more piece than line feeds).
pub open spec fn split_lines(t: Seq<char>) -> Seq<Seq<char>>
    decreases t.len(),
{
    if t.len() == 0 {
        seq![Seq::empty()]
    } else {
        let rest = split_lines(t.drop_last());
        if t.last() == '\n' {
            rest.push(Seq::empty())
        } else {
            rest.update(rest.len() - 1, rest.last().push(t.last()))
        }
    }
}

/// The trimmed lines that are not empty, in order.
pub open spec fn nonblank_trimmed(lines: Seq<Seq<char>>) -> Seq<Seq<char>>
    decreases lines.len(),
{
    if lines.len() == 0 {
        Seq::empty()
    } else {
        let done = nonblank_trimmed(lines.drop_last());
        let t = trim(lines.last());
        if t.len() > 0 {
            done.push(t)
        } else {
            done
        }
    }
}

/// The documents of a text: its lines, trimmed, without the empty ones.
pub open spec fn docs_of_text(t: Seq<char>) -> Seq<Seq<char>> {
    nonblank_trimmed(split_lines(t))
}

/// Pushing a vector onto a vector of vectors pushes its view onto the
/// nested view.
proof fn lemma_push_deep_view(before: Vec<Vec<char>>, after: Vec<Vec<char>>, x: Vec<char>)
    requires
        after@ == before@.push(x),
    ensures
        after.deep_view() =~= before.deep_view().push(x@),
{
    assert(x.deep_view() =~= x@);
    assert forall|i: int| 0 <= i < after@.len() implies after.deep_view()[i] == before.deep_view().push(x@)[i] by {
        if i < before@.len() {
            assert(after@[i] == before@[i]);
        }
    }
}

/// `s` with leading and trailing white space removed.
pub fn trim_chars(s: &Vec<char>) -> (r: Vec<char>)
    ensures
        r@ == trim(s@),
        r@.len() > 0 ==> !is_white_space(r@[0]) && !is_white_space(r@.last()),
{
    proof {
        lemma_trim_strips_all_edge_white_space(s@);
    }
    let n: usize = s.len();
    let mut a: usize = 0;
    assert(s@.subrange(0, n as int) =~= s@);
    while a < n && white_space(s[a])
        invariant
            a <= n,
            n == s@.len(),
            leading_ws(s@) == a + leading_ws(s@.subrange(a as int, n as int)),
        decreases n - a,
    {
        proof {
            let sub = s@.subrange(a as int, n as int);
            assert(sub[0] == s@[a as int]);
            assert(sub.drop_first() =~= s@.subrange(a + 1, n as int));
        }
        a = a + 1;
    }
    proof {
        let sub = s@.subrange(a as int, n as int);
        if a < n {
            assert(sub[0] == s@[a as int]);
        }
        assert(leading_ws(sub) == 0);
    }
    let mut r: Vec<char> = Vec::new();
    if a == n {
        assert(r@ =~= trim(s@));
        return r;
    }
    let mut b: usize = n;
    assert(s@.subrange(0, n as int) =~= s@);
    while b > a && white_space(s[b - 1])
        invariant
            a < b <= n,
            n == s@.len(),
            !is_white_space(s@[a as int]),
            trailing_ws(s@) == (n - b) + trailing_ws(s@.subrange(0, b as int)),
        decreases b,
    {
        proof {
            let sub = s@.subrange(0, b as int);
            assert(sub.last() == s@[b - 1]);
            assert(sub.drop_last() =~= s@.subrange(0, b - 1));
            if b - 1 == a {
                assert(false);
            }
        }
        b = b - 1;
    }
    proof {
        let sub = s@.subrange(0, b as int);
        assert(sub.last() == s@[b - 1]);
        assert(trailing_ws(sub) == 0);
    }
    let mut k: usize = a;
    while k < b
        invariant
            a <= k <= b <= n,
            n == s@.len(),
            r@ =~= s@.subrange(a as int, k as int),
        decreases b - k,
    {
        r.push(s[k]);
        k = k + 1;
    }
    r
}

/// Splits `text` into lines (at line feeds), trims each line, and keeps the
/// lines that are not empty.
pub fn parse_docs(text: &Vec<char>) -> (docs: Vec<Vec<char>>)
    ensures
        docs.deep_view() == docs_of_text(text@),
        docs.deep_view() == split_lines(text@).map_values(|l: Seq<char>| trim(l)).filter(|l: Seq<char>| l.len() > 0),
{
    proof {
        lemma_docs_are_trimmed_nonblank_lines(text@);
    }
    let n: usize = text.len();
    let mut docs: Vec<Vec<char>> = Vec::new();
    let mut cur: Vec<char> = Vec::new();
    let mut i: usize = 0;
    proof {
        assert(text@.take(0) =~= Seq::<char>::empty());
        assert(docs.deep_view() =~= Seq::<Seq<char>>::empty());
    }
    while i < n
        invariant
            i <= n,
            n == text@.len(),
            split_lines(text@.take(i as int)).len() >= 1,
            cur@ == split_lines(text@.take(i as int)).last(),
            docs.deep_view() == nonblank_trimmed(split_lines(text@.take(i as int)).drop_last()),
        decreases n - i,
    {
        let c: char = text[i];
        let ghost before = split_lines(text@.take(i as int));
        proof {
            assert(text@.take(i + 1).drop_last() =~= text@.take(i as int));
            assert(text@.take(i + 1).last() == c);
        }
        if c == '\n' {
            let t: Vec<char> = trim_chars(&cur);
            let ghost after = split_lines(text@.take(i + 1));
            proof {
                assert(after == before.push(Seq::empty()));
                assert(after.drop_last() =~= before);
                assert(before =~= before.drop_last().push(before.last()));
            }
            if t.len() > 0 {
                let ghost v0 = docs;
                let ghost tv = t;
                docs.push(t);
                proof {
                    lemma_push_deep_view(v0, docs, tv);
                }
            }
            cur = Vec::new();
            proof {
                assert(cur@ =~= after.last());
            }
        } else {
            cur.push(c);
            proof {
                let after = split_lines(text@.take(i + 1));
                assert(after == before.update(before.len() - 1, before.last().push(c)));
                assert(after.drop_last() =~= before.drop_last());
                assert(after.last() == before.last().push(c));
            }
        }
        i = i + 1;
    }
    let ghost lines = split_lines(text@.take(n as int));
    proof {
        assert(text@.take(n as int) =~= text@);
        assert(lines =~= lines.drop_last().push(lines.last()));
    }
    let t: Vec<char> = trim_chars(&cur);
    if t.len() > 0 {
        let ghost v0 = docs;
        let ghost tv = t;
        docs.push(t);
        proof {
            lemma_push_deep_view(v0, docs, tv);
        }
    }
    docs
}

/// Strictly increasing, hence free of repeats.
pub open spec fn strictly_sorted(s: Seq<char>) -> bool {
    forall|i: int, j: int| 0 <= i < j < s.len() ==> s[i] < s[j]
}

/// `c` occurs in one of the documents.
pub open spec fn in_docs(docs: Seq<Seq<char>>, c: char) -> bool {
    exists|d: int| 0 <= d < docs.len() && #[trigger] docs[d].contains(c)
}

/// Adds `c` to a strictly sorted vector unless it is there already.
fn insert_sorted(v: &mut Vec<char>, c: char)
    requires
        strictly_sorted(old(v)@),
    ensures
        strictly_sorted(final(v)@),
        forall|x: char| final(v)@.contains(x) <==> (old(v)@.contains(x) || x == c),
{
    let n: usize = v.len();
    let mut p: usize = 0;
    while p < n && v[p] < c
        invariant
            p <= n,
            n == v@.len(),
            forall|k: int| 0 <= k < p ==> v@[k] < c,
        decreases n - p,
    {
        p = p + 1;
    }
    if p < n && v[p] == c {
        assert(v@[p as int] == c);
        return;
    }
    let ghost old_v = v@;
    assert(old_v == old(v)@);
    v.insert(p, c);
    proof {
        assert(v@ == old_v.insert(p as int, c));
        assert forall|i: int, j: int| 0 <= i < j < v@.len() implies v@[i] < v@[j] by {
            if j < p {
            } else if j == p {
            } else if i < p {
                assert(v@[j] == old_v[j - 1]);
                assert(old_v[j - 1] > c || old_v[j - 1] == c) by {
                    assert(old_v[p as int] >= c);
                    assert(p <= j - 1);
                }
            } else if i == p {
                assert(v@[j] == old_v[j - 1]);
                assert(old_v[p as int] != c);
            } else {
                assert(v@[i] == old_v[i - 1]);
            }
        }
        assert forall|x: char| v@.contains(x) <==> (old_v.contains(x) || x == c) by {
            if v@.contains(x) {
                let k = choose|k: int| 0 <= k < v@.len() && v@[k] == x;
                if k < p {
                    assert(old_v[k] == x);
                } else if k > p {
                    assert(old_v[k - 1] == x);
                }
            }
            if old_v.contains(x) {
                let k = choose|k: int| 0 <= k < old_v.len() && old_v[k] == x;
                if k < p {
                    assert(v@[k] == x);
                } else {
                    assert(v@[k + 1] == x);
                }
            }
            if x == c {
                assert(v@[p as int] == c);
            }
        }
        assert(forall|x: char| v@.contains(x) <==> (old(v)@.contains(x) || x == c));
    }
}

/// The characters used in `docs`, each once, in increasing order.
pub fn vocabulary(docs: &Vec<Vec<char>>) -> (chars: Vec<char>)
    ensures
        strictly_sorted(chars@),
        forall|c: char| chars@.contains(c) <==> in_docs(docs.deep_view(), c),
{
    let mut chars: Vec<char> = Vec::new();
    let nd: usize = docs.len();
    let mut d: usize = 0;
    while d < nd
        invariant
            d <= nd,
            nd == docs@.len(),
            strictly_sorted(chars@),
            forall|c: char| chars@.contains(c) <==> in_docs(docs.deep_view().take(d as int), c),
        decreases nd - d,
    {
        let doc: &Vec<char> = &docs[d];
        let nc: usize = doc.len();
        let mut k: usize = 0;
        while k < nc
            invariant
                k <= nc,
                d < nd,
                nd == docs@.len(),
                nc == doc@.len(),
                doc@ == docs.deep_view()[d as int],
                strictly_sorted(chars@),
                forall|c: char| chars@.contains(c) <==> (in_docs(docs.deep_view().take(d as int), c) || doc@.take(k as int).contains(c)),
            decreases nc - k,
        {
            let ghost before = chars@;
            insert_sorted(&mut chars, doc[k]);
            proof {
                assert forall|c: char| chars@.contains(c) <==> (in_docs(docs.deep_view().take(d as int), c) || doc@.take(k + 1).contains(c)) by {
                    let t1 = doc@.take(k + 1);
                    let t0 = doc@.take(k as int);
                    if t0.contains(c) {
                        let j = choose|j: int| 0 <= j < t0.len() && t0[j] == c;
                        assert(t1[j] == c);
                    }
                    if t1.contains(c) {
                        let j = choose|j: int| 0 <= j < t1.len() && t1[j] == c;
                        if j < k {
                            assert(t0[j] == c);
                        }
                    }
                    if c == doc@[k as int] {
                        assert(t1[k as int] == c);
                    }
                }
            }
            k = k + 1;
        }
        proof {
            let dv = docs.deep_view();
            assert(doc@.take(nc as int) =~= doc@);
            assert forall|c: char| chars@.contains(c) <==> in_docs(dv.take(d + 1), c) by {
                if in_docs(dv.take(d as int), c) {
                    let e = choose|e: int| 0 <= e < dv.take(d as int).len() && #[trigger] dv.take(d as int)[e].contains(c);
                    assert(dv.take(d + 1)[e] == dv.take(d as int)[e]);
                }
                if doc@.contains(c) {
                    assert(dv.take(d + 1)[d as int] == doc@);
                }
                if in_docs(dv.take(d + 1), c) {
                    let e = choose|e: int| 0 <= e < dv.take(d + 1).len() && #[trigger] dv.take(d + 1)[e].contains(c);
                    if e < d {
                        assert(dv.take(d as int)[e] == dv.take(d + 1)[e]);
                    }
                }
            }
        }
        d = d + 1;
    }
    proof {
        assert(docs.deep_view().take(nd as int) =~= docs.deep_view());
    }
    chars
}

/// `p` is the first position of `c` in `vocab`.
pub open spec fn first_index_of(vocab: Seq<char>, c: char, p: int) -> bool {
    &&& 0 <= p < vocab.len()
    &&& vocab[p] == c
    &&& forall|k: int| 0 <= k < p ==> vocab[k] != c
}

/// First position of `c` in `vocab`, which must hold it.
fn position_of(vocab: &Vec<char>, c: char) -> (p: usize)
    requires
        vocab@.contains(c),
    ensures
        first_index_of(vocab@, c, p as int),
{
    let n: usize = vocab.len();
    let mut p: usize = 0;
    while p < n
        invariant
            p <= n,
            n == vocab@.len(),
            vocab@.contains(c),
            forall|k: int| 0 <= k < p ==> vocab@[k] != c,
        decreases n - p,
    {
        if vocab[p] == c {
            return p;
        }
        p = p + 1;
    }
    assert(false);
    0
}

/// Tokens of a document: the boundary token `vocab.len()`, the vocabulary
/// position of each character, and the boundary token again.
pub fn encode(doc: &Vec<char>, vocab: &Vec<char>) -> (tokens: Vec<usize>)
    requires
        forall|i: int| 0 <= i < doc@.len() ==> vocab@.contains(#[trigger] doc@[i]),
        doc@.len() + 2 <= usize::MAX,
    ensures
        tokens@.len() == doc@.len() + 2,
        tokens@[0] == vocab@.len(),
        tokens@.last() == vocab@.len(),
        forall|i: int| 0 <= i < doc@.len() ==> first_index_of(vocab@, doc@[i], #[trigger] tokens@[i + 1] as int),
{
    let bos: usize = vocab.len();
    let mut tokens: Vec<usize> = Vec::new();
    tokens.push(bos);
    let n: usize = doc.len();
    let mut i: usize = 0;
    while i < n
        invariant
            i <= n,
            n == doc@.len(),
            bos == vocab@.len(),
            tokens@.len() == i + 1,
            tokens@[0] == bos,
            forall|j: int| 0 <= j < doc@.len() ==> vocab@.contains(#[trigger] doc@[j]),
            forall|j: int| 0 <= j < i ==> first_index_of(vocab@, doc@[j], #[trigger] tokens@[j + 1] as int),
        decreases n - i,
    {
        let p: usize = position_of(vocab, doc[i]);
        tokens.push(p);
        i = i + 1;
    }
    tokens.push(bos);
    tokens
}

/// Every character of the documents has a place in their vocabulary, so
/// each document can be encoded with it.
pub proof fn lemma_vocabulary_covers(docs: Seq<Seq<char>>, vocab: Seq<char>, d: int, i: int)
    requires
        forall|c: char| vocab.contains(c) <==> in_docs(docs, c),
        0 <= d < docs.len(),
        0 <= i < docs[d].len(),
    ensures
        vocab.contains(docs[d][i]),
{
    assert(docs[d].contains(docs[d][i]));
}

/// In a strictly sorted vocabulary a token names exactly one character:
/// decoding the tokens of a document gives the document back.
pub proof fn lemma_decode_encode(doc: Seq<char>, vocab: Seq<char>, tokens: Seq<usize>)
    requires
        strictly_sorted(vocab),
        tokens.len() == doc.len() + 2,
        forall|i: int| 0 <= i < doc.len() ==> first_index_of(vocab, doc[i], #[trigger] tokens[i + 1] as int),
    ensures
        Seq::new(doc.len(), |i: int| vocab[tokens[i + 1] as int]) == doc,
        forall|i: int| 0 <= i < doc.len() ==> (#[trigger] tokens[i + 1]) < vocab.len(),
{
    assert(Seq::new(doc.len(), |i: int| vocab[tokens[i + 1] as int]) =~= doc);
}

/// The documents are exactly the trimmed lines that are not empty, in line
/// order: every such line gives a document, repeated lines included, and
/// nothing else does.
pub proof fn lemma_docs_are_trimmed_nonblank_lines(t: Seq<char>)
    ensures
        docs_of_text(t) == split_lines(t).map_values(|l: Seq<char>| trim(l)).filter(|l: Seq<char>| l.len() > 0),
{
    lemma_nonblank_trimmed_filter(split_lines(t));
}

proof fn lemma_nonblank_trimmed_filter(lines: Seq<Seq<char>>)
    ensures
        nonblank_trimmed(lines) == lines.map_values(|l: Seq<char>| trim(l)).filter(|l: Seq<char>| l.len() > 0),
    decreases lines.len(),
{
    let f = |l: Seq<char>| trim(l);
    let p = |l: Seq<char>| l.len() > 0;
    let m = lines.map_values(f);
    reveal_with_fuel(Seq::filter, 1);
    if lines.len() > 0 {
        lemma_nonblank_trimmed_filter(lines.drop_last());
        assert(m.drop_last() =~= lines.drop_last().map_values(f));
        assert(m.last() == trim(lines.last()));
    } else {
        assert(m =~= Seq::<Seq<char>>::empty());
    }
}

/// Lines joined back together with a line feed between neighbours.
pub open spec fn join_lines(lines: Seq<Seq<char>>) -> Seq<char>
    decreases lines.len(),
{
    if lines.len() <= 1 {
        if lines.len() == 1 { lines[0] } else { Seq::empty() }
    } else {
        join_lines(lines.drop_last()) + seq!['\n'] + lines.last()
    }
}

/// Splitting at line feeds loses nothing and keeps no line feed: no piece
/// holds a line feed, and joining the pieces with line feeds gives the text
/// back.
pub proof fn lemma_split_lines_inverse(t: Seq<char>)
    ensures
        split_lines(t).len() >= 1,
        forall|k: int| 0 <= k < split_lines(t).len() ==> !(#[trigger] split_lines(t)[k]).contains('\n'),
        join_lines(split_lines(t)) == t,
    decreases t.len(),
{
    if t.len() > 0 {
        let u = t.drop_last();
        let c = t.last();
        let rest = split_lines(u);
        lemma_split_lines_inverse(u);
        assert(t =~= u.push(c));
        if c == '\n' {
            let ls = rest.push(Seq::empty());
            assert(ls.drop_last() =~= rest);
            assert(join_lines(ls) =~= u + seq!['\n'] + Seq::<char>::empty());
            assert forall|k: int| 0 <= k < ls.len() implies !(#[trigger] ls[k]).contains('\n') by {
                if k < rest.len() {
                    assert(ls[k] == rest[k]);
                } else {
                    assert(ls[k] =~= Seq::<char>::empty());
                }
            }
        } else {
            let ls = rest.update(rest.len() - 1, rest.last().push(c));
            assert forall|k: int| 0 <= k < ls.len() implies !(#[trigger] ls[k]).contains('\n') by {
                if k < rest.len() - 1 {
                    assert(ls[k] == rest[k]);
                } else {
                    assert(!rest[k].contains('\n'));
                    if ls[k].contains('\n') {
                        let j = choose|j: int| 0 <= j < ls[k].len() && ls[k][j] == '\n';
                        if j < rest[k].len() {
                            assert(rest[k][j] == '\n');
                        }
                    }
                }
            }
            if rest.len() == 1 {
                assert(join_lines(ls) =~= rest[0].push(c));
            } else {
                assert(ls.drop_last() =~= rest.drop_last());
                assert(join_lines(rest) == join_lines(rest.drop_last()) + seq!['\n'] + rest.last());
                assert(join_lines(ls) =~= join_lines(rest.drop_last()) + seq!['\n'] + rest.last().push(c));
            }
        }
    }
}

proof fn lemma_leading_ws(s: Seq<char>)
    ensures
        leading_ws(s) <= s.len(),
        forall|i: int| 0 <= i < leading_ws(s) ==> is_white_space(#[trigger] s[i]),
        leading_ws(s) < s.len() ==> !is_white_space(s[leading_ws(s) as int]),
    decreases s.len(),
{
    if s.len() > 0 && is_white_space(s[0]) {
        let d = s.drop_first();
        lemma_leading_ws(d);
        assert forall|i: int| 0 <= i < leading_ws(s) implies is_white_space(#[trigger] s[i]) by {
            if i > 0 {
                assert(s[i] == d[i - 1]);
            }
        }
        if leading_ws(s) < s.len() {
            assert(s[leading_ws(s) as int] == d[leading_ws(d) as int]);
        }
    }
}

proof fn lemma_trailing_ws(s: Seq<char>)
    ensures
        trailing_ws(s) <= s.len(),
        forall|i: int| s.len() - trailing_ws(s) <= i < s.len() ==> is_white_space(#[trigger] s[i]),
        trailing_ws(s) < s.len() ==> !is_white_space(s[s.len() - 1 - trailing_ws(s)]),
    decreases s.len(),
{
    if s.len() > 0 && is_white_space(s.last()) {
        let d = s.drop_last();
        lemma_trailing_ws(d);
        assert forall|i: int| s.len() - trailing_ws(s) <= i < s.len() implies is_white_space(#[trigger] s[i]) by {
            if i < s.len() - 1 {
                assert(s[i] == d[i]);
            }
        }
        if trailing_ws(s) < s.len() {
            assert(s[s.len() - 1 - trailing_ws(s)] == d[d.len() - 1 - trailing_ws(d)]);
        }
    }
}

/// Trimming removes all white space at both ends and nothing else: the
/// result is a contiguous piece of `s`, everything of `s` before and after
/// it is white space, and it neither starts nor ends with white space (so a
/// line of only white space trims to nothing).
pub proof fn lemma_trim_strips_all_edge_white_space(s: Seq<char>)
    ensures
        trim(s).len() > 0 ==> !is_white_space(trim(s)[0]) && !is_white_space(trim(s).last()),
        exists|a: int|
            #![trigger s.subrange(a, a + trim(s).len())]
            0 <= a && a + trim(s).len() <= s.len()
            && s.subrange(a, a + trim(s).len()) == trim(s)
            && (forall|i: int| 0 <= i < a ==> is_white_space(#[trigger] s[i]))
            && (forall|i: int| a + trim(s).len() <= i < s.len() ==> is_white_space(#[trigger] s[i])),
{
    lemma_leading_ws(s);
    lemma_trailing_ws(s);
    let a = leading_ws(s) as int;
    if a == s.len() {
        assert(trim(s).len() == 0);
        assert(s.subrange(a, a + 0) =~= trim(s));
    } else {
        let b = s.len() - trailing_ws(s);
        assert(!is_white_space(s[a]));
        assert(a < b);
        assert(trim(s) == s.subrange(a, b));
        assert(trim(s)[0] == s[a]);
        assert(trim(s).last() == s[b - 1]);
        assert(s.subrange(a, a + trim(s).len()) == trim(s));
    }
}

} // verus!
