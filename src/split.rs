use vstd::prelude::*;

verus! {

broadcast use vstd::string::group_string_axioms;

/// The text of each string in `v`.
pub open spec fn texts(v: Seq<String>) -> Seq<Seq<char>> {
    v.map_values(|x: String| x@)
}

/// Whether `p` occurs in `s` at position `i`.
pub open spec fn occurs_at(s: Seq<char>, p: Seq<char>, i: int) -> bool {
    0 <= i && i + p.len() <= s.len() && s.subrange(i, i + p.len()) == p
}

/// The pieces of `cur + s` cut at the leftmost non-overlapping occurrences
/// of the non-empty `p` in `s`, where `cur` is a piece already under way.
pub open spec fn pieces_from(cur: Seq<char>, s: Seq<char>, p: Seq<char>) -> Seq<Seq<char>>
    decreases s.len(),
{
    if p.len() == 0 || s.len() < p.len() {
        seq![cur + s]
    } else if occurs_at(s, p, 0) {
        seq![cur] + pieces_from(Seq::empty(), s.subrange(p.len() as int, s.len() as int), p)
    } else {
        pieces_from(cur.push(s[0]), s.drop_first(), p)
    }
}

/// `s` cut at every literal occurrence of `p`, scanning from the left; an
/// empty `p` cuts before and after each character.
pub open spec fn split_on(s: Seq<char>, p: Seq<char>) -> Seq<Seq<char>> {
    if p.len() == 0 {
        seq![Seq::<char>::empty()] + s.map_values(|c: char| seq![c]) + seq![Seq::<char>::empty()]
    } else {
        pieces_from(Seq::empty(), s, p)
    }
}

/// The characters of `s`, one per element.
fn chars_of(s: &str) -> (r: Vec<char>)
    ensures
        r@ == s@,
{
    let mut r: Vec<char> = Vec::new();
    for c in it: s.chars()
        invariant
            it.seq() == s@,
            r@ == it.seq().take(it.index() as int),
    {
        r.push(c);
    }
    assert(r@ =~= s@);
    r
}

/// Whether `p` occurs in `s` at position `i`.
fn occurs_at_exec(s: &Vec<char>, p: &Vec<char>, i: usize) -> (r: bool)
    ensures
        r == occurs_at(s@, p@, i as int),
{
    if i > s.len() || p.len() > s.len() - i {
        return false;
    }
    let mut k: usize = 0;
    while k < p.len()
        invariant
            k <= p.len(),
            i + p.len() <= s.len(),
            forall|j: int| 0 <= j < k ==> s@[i + j] == p@[j],
        decreases p.len() - k,
    {
        if s[i + k] != p[k] {
            assert(s@.subrange(i as int, i + p.len())[k as int] != p@[k as int]);
            return false;
        }
        k = k + 1;
    }
    assert(s@.subrange(i as int, i + p.len()) =~= p@);
    true
}


/// Cuts `text` at every literal occurrence of `pat`, keeping empty pieces.
pub fn split_pattern(text: &str, pat: &str) -> (r: Vec<String>)
    ensures
        texts(r@) == split_on(text@, pat@),
{
    let s = chars_of(text);
    let p = chars_of(pat);
    let n = s.len();
    let mut r: Vec<String> = Vec::new();
    if p.len() == 0 {
        r.push(String::new());
        let mut i: usize = 0;
        while i < n
            invariant
                i <= n,
                n == s@.len(),
                s@ == text@,
                texts(r@) == seq![Seq::<char>::empty()] + text@.take(i as int).map_values(|c: char| seq![c]),
            decreases n - i,
        {
            let piece = text.substring_char(i, i + 1).to_owned();
            let ghost before = r@;
            r.push(piece);
            proof {
                assert(piece@ =~= seq![text@[i as int]]);
                assert(texts(r@) =~= texts(before).push(seq![text@[i as int]]));
                assert(text@.take(i + 1) =~= text@.take(i as int).push(text@[i as int]));
                assert(texts(r@) =~= seq![Seq::<char>::empty()] + text@.take(i + 1).map_values(|c: char| seq![c]));
            }
            i = i + 1;
        }
        r.push(String::new());
        assert(text@.take(n as int) =~= text@);
        assert(texts(r@) =~= split_on(text@, pat@));
        return r;
    }
    let mut st: usize = 0;
    let mut i: usize = 0;
    assert(s@.subrange(0, 0) =~= Seq::<char>::empty());
    assert(s@.subrange(0, n as int) =~= s@);
    assert(texts(r@) =~= Seq::<Seq<char>>::empty());
    assert(Seq::<Seq<char>>::empty() + pieces_from(Seq::empty(), s@, p@) =~= pieces_from(Seq::empty(), s@, p@));
    while i < n
        invariant
            st <= i <= n,
            n == s@.len(),
            s@ == text@,
            p@ == pat@,
            p@.len() > 0,
            texts(r@) + pieces_from(s@.subrange(st as int, i as int), s@.subrange(i as int, n as int), p@)
                == split_on(text@, pat@),
        decreases n - i,
    {
        let ghost cur = s@.subrange(st as int, i as int);
        let ghost rest = s@.subrange(i as int, n as int);
        if occurs_at_exec(&s, &p, i) {
            let piece = text.substring_char(st, i).to_owned();
            r.push(piece);
            proof {
                assert(rest.len() >= p@.len());
                assert(occurs_at(rest, p@, 0)) by {
                    assert(rest.subrange(0, p@.len() as int) =~= s@.subrange(i as int, i + p@.len()));
                }
                assert(rest.subrange(p@.len() as int, rest.len() as int) =~= s@.subrange(i + p@.len(), n as int));
                assert(s@.subrange(i + p@.len(), i + p@.len()) =~= Seq::<char>::empty());
                assert(texts(r@) =~= texts(r@.drop_last()).push(cur));
            }
            i = i + p.len();
            st = i;
        } else {
            proof {
                if rest.len() >= p@.len() {
                    assert(!occurs_at(rest, p@, 0)) by {
                        assert(rest.subrange(0, p@.len() as int) =~= s@.subrange(i as int, i + p@.len()));
                    }
                    assert(cur.push(rest[0]) =~= s@.subrange(st as int, i + 1));
                    assert(rest.drop_first() =~= s@.subrange(i + 1, n as int));
                } else {
                    assert(cur + rest =~= s@.subrange(st as int, i + 1) + s@.subrange(i + 1, n as int));
                    let rest2 = s@.subrange(i + 1, n as int);
                    assert(pieces_from(s@.subrange(st as int, i + 1), rest2, p@) == seq![s@.subrange(st as int, i + 1) + rest2]);
                }
            }
            i = i + 1;
        }
    }
    let piece = text.substring_char(st, n).to_owned();
    r.push(piece);
    proof {
        let cur = s@.subrange(st as int, n as int);
        assert(s@.subrange(n as int, n as int) =~= Seq::<char>::empty());
        assert(cur + Seq::<char>::empty() =~= cur);
        assert(texts(r@) =~= texts(r@.drop_last()).push(cur));
    }
    r
}


/// The piece that ends a line: a final carriage return belongs to the line break.
pub open spec fn strip_cr(x: Seq<char>) -> Seq<char> {
    if x.len() > 0 && x.last() == '\r' {
        x.drop_last()
    } else {
        x
    }
}

/// The lines of `s`: cut at each `\n` or `\r\n`, with no empty line after a
/// final line break.
pub open spec fn lines_of(s: Seq<char>) -> Seq<Seq<char>> {
    let q = split_on(s, seq!['\n']);
    let body = q.drop_last().map_values(|x: Seq<char>| strip_cr(x));
    if q.last().len() == 0 {
        body
    } else {
        body.push(q.last())
    }
}

/// Whether a character has Unicode's White_Space property.
pub open spec fn white_space(c: char) -> bool {
    ('\u{9}' <= c && c <= '\u{d}') || c == ' ' || c == '\u{85}' || c == '\u{a0}' || c == '\u{1680}'
        || ('\u{2000}' <= c && c <= '\u{200a}') || c == '\u{2028}' || c == '\u{2029}' || c == '\u{202f}'
        || c == '\u{205f}' || c == '\u{3000}'
}

/// Whether `c` has Unicode's White_Space property.
pub fn is_white_space(c: char) -> (r: bool)
    ensures
        r == white_space(c),
{
    ('\u{9}' <= c && c <= '\u{d}') || c == ' ' || c == '\u{85}' || c == '\u{a0}' || c == '\u{1680}'
        || ('\u{2000}' <= c && c <= '\u{200a}') || c == '\u{2028}' || c == '\u{2029}' || c == '\u{202f}'
        || c == '\u{205f}' || c == '\u{3000}'
}

/// The non-empty runs of non-white characters of `cur + s`, where `cur` is a
/// run already under way.
pub open spec fn words_from(cur: Seq<char>, s: Seq<char>) -> Seq<Seq<char>>
    decreases s.len(),
{
    if s.len() == 0 {
        if cur.len() > 0 { seq![cur] } else { Seq::empty() }
    } else if white_space(s[0]) {
        (if cur.len() > 0 { seq![cur] } else { Seq::empty() }) + words_from(Seq::empty(), s.drop_first())
    } else {
        words_from(cur.push(s[0]), s.drop_first())
    }
}

/// The words of `s`: its maximal runs of characters that are not white space.
pub open spec fn words_of(s: Seq<char>) -> Seq<Seq<char>> {
    words_from(Seq::empty(), s)
}

/// A split never yields an empty list of pieces.
pub proof fn lemma_pieces_nonempty(cur: Seq<char>, s: Seq<char>, p: Seq<char>)
    ensures
        pieces_from(cur, s, p).len() >= 1,
    decreases s.len(),
{
    if p.len() == 0 || s.len() < p.len() {
    } else if occurs_at(s, p, 0) {
        lemma_pieces_nonempty(Seq::empty(), s.subrange(p.len() as int, s.len() as int), p);
    } else {
        lemma_pieces_nonempty(cur.push(s[0]), s.drop_first(), p);
    }
}

/// Cuts `text` into lines at each `\n` or `\r\n`; a final line break does not
/// start an empty line.
pub fn split_lines(text: &str) -> (r: Vec<String>)
    ensures
        texts(r@) == lines_of(text@),
{
    let pieces = split_pattern(text, "\n");
    proof {
        reveal_strlit("\n");
        assert("\n"@ =~= seq!['\n']);
        lemma_pieces_nonempty(Seq::empty(), text@, seq!['\n']);
    }
    let ghost q = split_on(text@, seq!['\n']);
    let m = pieces.len();
    let mut r: Vec<String> = Vec::new();
    let mut j: usize = 0;
    while j + 1 < m
        invariant
            m == pieces@.len(),
            m >= 1,
            j + 1 <= m,
            texts(pieces@) == q,
            texts(r@) == q.take(j as int).map_values(|x: Seq<char>| strip_cr(x)),
        decreases m - j,
    {
        let x = pieces[j].as_str();
        let len = x.unicode_len();
        let ghost before = r@;
        assert(x@ == q[j as int]);
        if len > 0 && x.get_char(len - 1) == '\r' {
            r.push(x.substring_char(0, len - 1).to_owned());
            assert(x@.subrange(0, len - 1) =~= x@.drop_last());
        } else {
            r.push(x.to_owned());
        }
        proof {
            assert(texts(r@) =~= texts(before).push(strip_cr(q[j as int])));
            assert(q.take(j + 1) =~= q.take(j as int).push(q[j as int]));
            assert(q.take(j + 1).map_values(|x: Seq<char>| strip_cr(x)) =~= q.take(j as int).map_values(|x: Seq<char>| strip_cr(x)).push(strip_cr(q[j as int])));
        }
        j = j + 1;
    }
    assert(q.take(j as int) =~= q.drop_last());
    let last = pieces[m - 1].as_str();
    assert(last@ == q.last());
    if last.unicode_len() > 0 {
        let ghost before = r@;
        r.push(last.to_owned());
        assert(texts(r@) =~= texts(before).push(q.last()));
    }
    r
}

/// Cuts `text` at runs of white space, dropping empty pieces.
pub fn split_words(text: &str) -> (r: Vec<String>)
    ensures
        texts(r@) == words_of(text@),
{
    let s = chars_of(text);
    let n = s.len();
    let mut r: Vec<String> = Vec::new();
    let mut st: usize = 0;
    let mut i: usize = 0;
    assert(s@.subrange(0, 0) =~= Seq::<char>::empty());
    assert(s@.subrange(0, n as int) =~= s@);
    assert(texts(r@) + words_from(Seq::empty(), s@) =~= words_of(text@));
    while i < n
        invariant
            st <= i <= n,
            n == s@.len(),
            s@ == text@,
            texts(r@) + words_from(s@.subrange(st as int, i as int), s@.subrange(i as int, n as int))
                == words_of(text@),
        decreases n - i,
    {
        let ghost cur = s@.subrange(st as int, i as int);
        let ghost rest = s@.subrange(i as int, n as int);
        let ghost before = r@;
        assert(rest[0] == s@[i as int]);
        assert(rest.drop_first() =~= s@.subrange(i + 1, n as int));
        if is_white_space(s[i]) {
            if st < i {
                r.push(text.substring_char(st, i).to_owned());
                assert(texts(r@) =~= texts(before) + seq![cur]);
            } else {
                assert(cur =~= Seq::<char>::empty());
            }
            i = i + 1;
            st = i;
            assert(s@.subrange(st as int, i as int) =~= Seq::<char>::empty());
            assert(texts(before) + words_from(cur, rest) =~= texts(r@) + words_from(Seq::empty(), rest.drop_first()));
        } else {
            assert(cur.push(rest[0]) =~= s@.subrange(st as int, i + 1));
            i = i + 1;
        }
    }
    let ghost cur = s@.subrange(st as int, n as int);
    let ghost before = r@;
    assert(s@.subrange(n as int, n as int) =~= Seq::<char>::empty());
    if st < n {
        r.push(text.substring_char(st, n).to_owned());
        assert(texts(r@) =~= texts(before) + seq![cur]);
    } else {
        assert(texts(r@) =~= texts(before) + Seq::<Seq<char>>::empty());
    }
    r
}

/// How many times `x` occurs in `s`.
pub open spec fn count_char(s: Seq<char>, x: char) -> nat
    decreases s.len(),
{
    if s.len() == 0 {
        0
    } else {
        (if s[0] == x { 1nat } else { 0nat }) + count_char(s.drop_first(), x)
    }
}

/// The pieces of `q` put back together with `p` between each two of them.
pub open spec fn join(q: Seq<Seq<char>>, p: Seq<char>) -> Seq<char>
    decreases q.len(),
{
    if q.len() == 0 {
        Seq::empty()
    } else if q.len() == 1 {
        q[0]
    } else {
        q[0] + p + join(q.drop_first(), p)
    }
}

proof fn lemma_single_char_pieces(cur: Seq<char>, s: Seq<char>, x: char)
    ensures
        pieces_from(cur, s, seq![x]).len() == count_char(s, x) + 1,
        pieces_from(cur, s, seq![x]).last().len() == 0 <==> if s.len() == 0 {
            cur.len() == 0
        } else {
            s.last() == x
        },
    decreases s.len(),
{
    let p = seq![x];
    if s.len() == 0 {
        assert(cur + s =~= cur);
    } else {
        assert(s.subrange(0, 1) =~= seq![s[0]]);
        if s[0] == x {
            assert(seq![s[0]] =~= p);
        } else {
            assert(seq![s[0]][0] != p[0]);
        }
        assert(occurs_at(s, p, 0) == (s[0] == x));
        let tail = s.drop_first();
        assert(s.subrange(1, s.len() as int) =~= tail);
        if s[0] == x {
            lemma_single_char_pieces(Seq::empty(), tail, x);
        } else {
            lemma_single_char_pieces(cur.push(s[0]), tail, x);
        }
        if tail.len() > 0 {
            assert(tail.last() == s.last());
        }
    }
}

/// The number of lines is the number of line feeds, plus one for a last line
/// that no line feed ends.
pub proof fn lemma_line_count(s: Seq<char>)
    ensures
        lines_of(s).len() == count_char(s, '\n') + if s.len() > 0 && s.last() != '\n' { 1nat } else { 0nat },
{
    lemma_single_char_pieces(Seq::empty(), s, '\n');
}

proof fn lemma_join_pieces(cur: Seq<char>, s: Seq<char>, p: Seq<char>)
    requires
        p.len() > 0,
    ensures
        join(pieces_from(cur, s, p), p) == cur + s,
    decreases s.len(),
{
    if s.len() < p.len() {
    } else if occurs_at(s, p, 0) {
        let tail = s.subrange(p.len() as int, s.len() as int);
        lemma_join_pieces(Seq::empty(), tail, p);
        lemma_pieces_nonempty(Seq::empty(), tail, p);
        let rest = pieces_from(Seq::empty(), tail, p);
        assert((seq![cur] + rest).drop_first() =~= rest);
        assert(Seq::<char>::empty() + tail =~= tail);
        assert(cur + p + tail =~= cur + s);
    } else {
        lemma_join_pieces(cur.push(s[0]), s.drop_first(), p);
        assert(cur.push(s[0]) + s.drop_first() =~= cur + s);
    }
}

proof fn lemma_join_chars(s: Seq<char>)
    ensures
        join(s.map_values(|c: char| seq![c]) + seq![Seq::<char>::empty()], Seq::empty()) == s,
    decreases s.len(),
{
    let q = s.map_values(|c: char| seq![c]) + seq![Seq::<char>::empty()];
    if s.len() == 0 {
        assert(q =~= seq![Seq::<char>::empty()]);
    } else {
        let tail = s.drop_first();
        lemma_join_chars(tail);
        assert(q.drop_first() =~= tail.map_values(|c: char| seq![c]) + seq![Seq::<char>::empty()]);
        assert(seq![s[0]] + Seq::<char>::empty() + tail =~= s);
    }
}

/// Putting the pieces of a literal split back together with the pattern
/// gives the text again, character for character.
pub proof fn lemma_split_round_trip(s: Seq<char>, p: Seq<char>)
    ensures
        join(split_on(s, p), p) == s,
{
    if p.len() == 0 {
        let q = s.map_values(|c: char| seq![c]) + seq![Seq::<char>::empty()];
        lemma_join_chars(s);
        assert(split_on(s, p) =~= seq![Seq::<char>::empty()] + q);
        assert((seq![Seq::<char>::empty()] + q).drop_first() =~= q);
        assert(Seq::<char>::empty() + p + join(q, p) =~= join(q, p));
    } else {
        lemma_join_pieces(Seq::empty(), s, p);
        assert(Seq::<char>::empty() + s =~= s);
    }
}

/// The number of occurrences of the non-empty `p` in `s`, taken from the left
/// without overlap.
pub open spec fn occurrences(s: Seq<char>, p: Seq<char>) -> nat
    decreases s.len(),
{
    if p.len() == 0 || s.len() < p.len() {
        0
    } else if occurs_at(s, p, 0) {
        1 + occurrences(s.subrange(p.len() as int, s.len() as int), p)
    } else {
        occurrences(s.drop_first(), p)
    }
}

/// Whether `p` occurs anywhere in `x`.
pub open spec fn contains(x: Seq<char>, p: Seq<char>) -> bool {
    exists|j: int| occurs_at(x, p, j)
}

proof fn lemma_pieces_count(cur: Seq<char>, s: Seq<char>, p: Seq<char>)
    requires
        p.len() > 0,
        forall|j: int| 0 <= j < cur.len() ==> !occurs_at(cur + s, p, j),
    ensures
        pieces_from(cur, s, p).len() == occurrences(s, p) + 1,
        forall|k: int| 0 <= k < pieces_from(cur, s, p).len() ==> !contains(#[trigger] pieces_from(cur, s, p)[k], p),
    decreases s.len(),
{
    let q = pieces_from(cur, s, p);
    let plen = p.len() as int;
    if s.len() < p.len() {
        assert forall|j: int| !occurs_at(cur + s, p, j) by {
            if 0 <= j < cur.len() {
            }
        }
        assert(!contains(q[0], p));
    } else if occurs_at(s, p, 0) {
        let tail = s.subrange(plen, s.len() as int);
        lemma_pieces_count(Seq::empty(), tail, p);
        assert forall|j: int| !occurs_at(cur, p, j) by {
            if 0 <= j && j + plen <= cur.len() {
                assert(!occurs_at(cur + s, p, j));
                assert((cur + s).subrange(j, j + plen) =~= cur.subrange(j, j + plen));
            }
        }
        let rest = pieces_from(Seq::empty(), tail, p);
        assert forall|k: int| 0 <= k < q.len() implies !contains(#[trigger] q[k], p) by {
            if k > 0 {
                assert(q[k] == rest[k - 1]);
            }
        }
    } else {
        let c2 = cur.push(s[0]);
        let s2 = s.drop_first();
        assert(c2 + s2 =~= cur + s);
        assert((cur + s).subrange(cur.len() as int, cur.len() + plen) =~= s.subrange(0, plen));
        lemma_pieces_count(c2, s2, p);
    }
}

/// A literal split with a non-empty pattern gives one piece more than the
/// pattern's occurrences, and no piece holds the pattern.
pub proof fn lemma_split_pieces(s: Seq<char>, p: Seq<char>)
    requires
        p.len() > 0,
    ensures
        split_on(s, p).len() == occurrences(s, p) + 1,
        forall|k: int| 0 <= k < split_on(s, p).len() ==> !contains(#[trigger] split_on(s, p)[k], p),
{
    lemma_pieces_count(Seq::empty(), s, p);
}

} // verus!
