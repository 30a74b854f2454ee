//! Whitespace, trimming, words and `[[link]]` extraction over character sequences.
use vstd::prelude::*;
use vstd::std_specs::iter::IteratorSpec;

verus! {

broadcast use vstd::string::group_string_axioms;

/// The characters of `s`, in order.
pub fn chars_of(s: &str) -> (v: Vec<char>)
    ensures
        v@ == s@,
{
    let mut v: Vec<char> = Vec::new();
    for c in iter: s.chars()
        invariant
            v@ == iter.seq().take(iter.index()),
            iter.seq() == s@,
    {
        v.push(c);
    }
    v
}

/// Appends the character `c` (`String::push`).
#[verifier::external_body]
pub(crate) fn push_char(s: &mut String, c: char)
    ensures
        final(s)@ == old(s)@.push(c),
{
    s.push(c);
}

/// The string made of `v[lo..hi]`.
pub fn string_of_range(v: &Vec<char>, lo: usize, hi: usize) -> (r: String)
    requires
        lo <= hi <= v.len(),
    ensures
        r@ == v@.subrange(lo as int, hi as int),
{
    let mut r = String::new();
    let mut i = lo;
    while i < hi
        invariant
            lo <= i <= hi <= v.len(),
            r@ == v@.subrange(lo as int, i as int),
        decreases hi - i,
    {
        push_char(&mut r, v[i]);
        assert(v@.subrange(lo as int, i + 1) == v@.subrange(lo as int, i as int).push(v@[i as int]));
        i += 1;
    }
    r
}

/// Unicode `White_Space`: the characters that `char::is_whitespace` accepts.
pub open spec fn is_ws(c: char) -> bool {
    let u = c as u32;
    (0x9 <= u <= 0xD) || u == 0x20 || u == 0x85 || u == 0xA0 || u == 0x1680 || (0x2000 <= u <= 0x200A)
        || u == 0x2028 || u == 0x2029 || u == 0x202F || u == 0x205F || u == 0x3000
}

/// Whether `c` is white space.
pub fn is_white_space(c: char) -> (r: bool)
    ensures
        r == is_ws(c),
{
    let u = c as u32;
    (0x9 <= u && u <= 0xD) || u == 0x20 || u == 0x85 || u == 0xA0 || u == 0x1680 || (0x2000 <= u
        && u <= 0x200A) || u == 0x2028 || u == 0x2029 || u == 0x202F || u == 0x205F || u == 0x3000
}

/// `s` without its leading white space.
pub open spec fn trim_start(s: Seq<char>) -> Seq<char>
    decreases s.len(),
{
    if s.len() > 0 && is_ws(s[0]) {
        trim_start(s.drop_first())
    } else {
        s
    }
}

/// `s` without its trailing white space.
pub open spec fn trim_end(s: Seq<char>) -> Seq<char>
    decreases s.len(),
{
    if s.len() > 0 && is_ws(s.last()) {
        trim_end(s.drop_last())
    } else {
        s
    }
}

/// `s` without leading and trailing white space.
pub open spec fn trimmed(s: Seq<char>) -> Seq<char> {
    trim_end(trim_start(s))
}

proof fn lemma_trim_start_at(s: Seq<char>, k: int)
    requires
        0 <= k <= s.len(),
        forall|i: int| 0 <= i < k ==> is_ws(#[trigger] s[i]),
        k == s.len() || !is_ws(s[k]),
    ensures
        trim_start(s) == s.skip(k),
    decreases k,
{
    if k > 0 {
        assert(is_ws(s[0]));
        lemma_trim_start_at(s.drop_first(), k - 1);
        assert(s.drop_first().skip(k - 1) == s.skip(k));
    } else {
        assert(s.skip(0) == s);
    }
}

proof fn lemma_trim_end_at(s: Seq<char>, k: int)
    requires
        0 <= k <= s.len(),
        forall|i: int| k <= i < s.len() ==> is_ws(#[trigger] s[i]),
        k == 0 || !is_ws(s[k - 1]),
    ensures
        trim_end(s) == s.take(k),
    decreases s.len() - k,
{
    if k < s.len() {
        assert(is_ws(s.last()));
        lemma_trim_end_at(s.drop_last(), k);
        assert(s.drop_last().take(k) == s.take(k));
    } else {
        assert(s.take(k) == s);
    }
}

/// Bounds of `v[lo..hi]` once white space is cut from both ends.
fn trim_bounds(v: &Vec<char>, lo: usize, hi: usize) -> (r: (usize, usize))
    requires
        lo <= hi <= v.len(),
    ensures
        lo <= r.0 <= r.1 <= hi,
        v@.subrange(r.0 as int, r.1 as int) == trimmed(v@.subrange(lo as int, hi as int)),
{
    let ghost s = v@.subrange(lo as int, hi as int);
    let mut a = lo;
    while a < hi && is_white_space(v[a])
        invariant
            lo <= a <= hi <= v.len(),
            forall|i: int| lo <= i < a ==> is_ws(#[trigger] v@[i]),
        decreases hi - a,
    {
        a += 1;
    }
    let mut b = hi;
    while b > a && is_white_space(v[b - 1])
        invariant
            lo <= a <= b <= hi <= v.len(),
            forall|i: int| b <= i < hi ==> is_ws(#[trigger] v@[i]),
        decreases b - a,
    {
        b -= 1;
    }
    proof {
        let k = a - lo;
        assert forall|i: int| 0 <= i < k implies is_ws(#[trigger] s[i]) by {
            assert(s[i] == v@[lo + i]);
        }
        lemma_trim_start_at(s, k);
        let t = s.skip(k);
        assert(t == v@.subrange(a as int, hi as int));
        let j = b - a;
        assert forall|i: int| j <= i < t.len() implies is_ws(#[trigger] t[i]) by {
            assert(t[i] == v@[a + i]);
        }
        if j > 0 {
            assert(t[j - 1] == v@[b - 1]);
        }
        lemma_trim_end_at(t, j);
        assert(t.take(j) == v@.subrange(a as int, b as int));
    }
    (a, b)
}

/// `s` without leading and trailing white space (`str::trim`).
pub fn trim(s: &str) -> (r: String)
    ensures
        r@ == trimmed(s@),
{
    let v = chars_of(s);
    let (a, b) = trim_bounds(&v, 0, v.len());
    assert(v@.subrange(0, v@.len() as int) == v@);
    string_of_range(&v, a, b)
}

/// The words of `s`: its maximal runs of characters that are not white space, in order.
pub open spec fn words(s: Seq<char>) -> Seq<Seq<char>>
    decreases s.len(),
{
    if s.len() == 0 {
        seq![]
    } else {
        let p = s.drop_last();
        let c = s.last();
        let w = words(p);
        if is_ws(c) {
            w
        } else if p.len() > 0 && !is_ws(p.last()) {
            w.update(w.len() - 1, w.last().push(c))
        } else {
            w.push(seq![c])
        }
    }
}

/// The words of `ws` with one space between each two.
pub open spec fn join_words(ws: Seq<Seq<char>>) -> Seq<char>
    decreases ws.len(),
{
    if ws.len() == 0 {
        seq![]
    } else if ws.len() == 1 {
        ws[0]
    } else {
        join_words(ws.drop_last()) + seq![' '] + ws.last()
    }
}

/// A text that ends in a character other than white space has a word.
proof fn lemma_words_nonempty(s: Seq<char>)
    requires
        s.len() > 0,
        !is_ws(s.last()),
    ensures
        words(s).len() > 0,
    decreases s.len(),
{
    let p = s.drop_last();
    if p.len() > 0 && !is_ws(p.last()) {
        lemma_words_nonempty(p);
    }
}

/// Words after one more character, and the text that joins them.
proof fn lemma_words_push(s: Seq<char>, c: char)
    ensures
        s.len() > 0 && !is_ws(s.last()) ==> words(s).len() > 0,
        words(s.push(c)) == (if is_ws(c) {
            words(s)
        } else if s.len() > 0 && !is_ws(s.last()) {
            words(s).update(words(s).len() - 1, words(s).last().push(c))
        } else {
            words(s).push(seq![c])
        }),
        join_words(words(s.push(c))) == (if is_ws(c) {
            join_words(words(s))
        } else if s.len() > 0 && !is_ws(s.last()) {
            join_words(words(s)).push(c)
        } else if words(s).len() == 0 {
            seq![c]
        } else {
            join_words(words(s)) + seq![' ', c]
        }),
{
    assert(s.push(c).drop_last() == s);
    let w = words(s);
    if s.len() > 0 && !is_ws(s.last()) {
        lemma_words_nonempty(s);
    }
    if !is_ws(c) {
        if s.len() > 0 && !is_ws(s.last()) {
            lemma_words_nonempty(s);
            let u = w.update(w.len() - 1, w.last().push(c));
            if w.len() > 1 {
                assert(u.drop_last() == w.drop_last());
            }
        } else {
            let u = w.push(seq![c]);
            if w.len() > 0 {
                assert(u.drop_last() == w);
            }
        }
    }
}

/// Number of words in `s` (`s.split_whitespace().count()`).
pub fn word_count(s: &str) -> (r: usize)
    ensures
        r == words(s@).len(),
{
    let v = chars_of(s);
    let mut count: usize = 0;
    let mut i: usize = 0;
    assert(v@.take(0) == Seq::<char>::empty());
    while i < v.len()
        invariant
            i <= v.len(),
            v@ == s@,
            count == words(v@.take(i as int)).len(),
            count <= i,
        decreases v.len() - i,
    {
        let c = v[i];
        proof {
            lemma_words_push(v@.take(i as int), c);
            assert(v@.take(i + 1) == v@.take(i as int).push(c));
            if i > 0 {
                assert(v@.take(i as int).last() == v@[i - 1]);
            }
        }
        if !is_white_space(c) && (i == 0 || is_white_space(v[i - 1])) {
            count += 1;
        }
        i += 1;
    }
    assert(v@.take(v.len() as int) == v@);
    count
}

/// The words of `s` joined by single spaces
/// (`s.split_whitespace().collect::<Vec<_>>().join(" ")`).
pub fn collapse_whitespace(s: &str) -> (r: String)
    ensures
        r@ == join_words(words(s@)),
{
    let v = chars_of(s);
    let mut out = String::new();
    let mut has_word = false;
    let mut i: usize = 0;
    assert(v@.take(0) == Seq::<char>::empty());
    while i < v.len()
        invariant
            i <= v.len(),
            v@ == s@,
            out@ == join_words(words(v@.take(i as int))),
            has_word <==> words(v@.take(i as int)).len() > 0,
        decreases v.len() - i,
    {
        let c = v[i];
        proof {
            lemma_words_push(v@.take(i as int), c);
            assert(v@.take(i + 1) == v@.take(i as int).push(c));
            if i > 0 {
                assert(v@.take(i as int).last() == v@[i - 1]);
            }
        }
        if !is_white_space(c) {
            if i > 0 && !is_white_space(v[i - 1]) {
                push_char(&mut out, c);
            } else {
                if has_word {
                    push_char(&mut out, ' ');
                }
                push_char(&mut out, c);
                has_word = true;
                proof {
                    assert(join_words(words(v@.take(i as int))) + seq![' ', c] == join_words(words(v@.take(i as int))).push(' ').push(c));
                }
            }
        }
        i += 1;
    }
    assert(v@.take(v.len() as int) == v@);
    out
}

/// What `str::to_lowercase` gives for a text.
pub uninterp spec fn lowercase(s: Seq<char>) -> Seq<char>;

/// `str::to_lowercase`: the Unicode lower-case mapping of `s`. Its result is
/// taken to be `lowercase(s@)`, a function of the characters of `s` alone;
/// nothing else is stated of it.
#[verifier::external_body]
fn to_lowercase(s: &str) -> (r: String)
    ensures
        r@ == lowercase(s@),
{
    s.to_lowercase()
}

/// The key under which titles and link texts are compared: words joined by
/// single spaces, then lower-cased.
pub open spec fn normalized(s: Seq<char>) -> Seq<char> {
    lowercase(join_words(words(s)))
}

/// Normalises a title or link text for comparison.
pub fn norm(s: &str) -> (r: String)
    ensures
        r@ == normalized(s@),
{
    let collapsed = collapse_whitespace(s);
    to_lowercase(collapsed.as_str())
}

/// Index of the first `a` directly followed by `b` in `s` at or after
/// `from`, or -1 when there is none.
pub open spec fn find_pair(s: Seq<char>, a: char, b: char, from: int) -> int
    decreases s.len() - from,
{
    if from < 0 || from + 1 >= s.len() {
        -1
    } else if s[from] == a && s[from + 1] == b {
        from
    } else {
        find_pair(s, a, b, from + 1)
    }
}

/// A found pair lies at or after the start and inside the text.
pub proof fn lemma_find_pair_range(s: Seq<char>, a: char, b: char, from: int)
    ensures
        find_pair(s, a, b, from) == -1 || (from <= find_pair(s, a, b, from) && find_pair(s, a, b, from) + 1 < s.len()),
    decreases s.len() - from,
{
    if !(from < 0 || from + 1 >= s.len()) && !(s[from] == a && s[from + 1] == b) {
        lemma_find_pair_range(s, a, b, from + 1);
    }
}

proof fn lemma_find_pair_skip(s: Seq<char>, a: char, b: char, p: int, k: int)
    requires
        0 <= p <= s.len(),
        0 <= k,
    ensures
        find_pair(s.skip(p), a, b, k) == (if find_pair(s, a, b, p + k) < 0 { -1 } else { find_pair(s, a, b, p + k) - p }),
    decreases s.len() - p - k,
{
    let t = s.skip(p);
    if !(k + 1 >= t.len()) {
        assert(t[k] == s[p + k] && t[k + 1] == s[p + k + 1]);
        if !(t[k] == a && t[k + 1] == b) {
            lemma_find_pair_skip(s, a, b, p, k + 1);
        }
    }
}

/// The texts between `[[` and the next `]]`, trimmed, in order of appearance.
/// Scanning resumes after each `]]`; an opening `[[` without a closing
/// `]]` after it ends the scan.
pub open spec fn links(s: Seq<char>) -> Seq<Seq<char>>
    decreases s.len(),
{
    let i = find_pair(s, '[', '[', 0);
    if i < 0 {
        seq![]
    } else {
        let r = s.skip(i + 2);
        let e = find_pair(r, ']', ']', 0);
        if e < 0 {
            seq![]
        } else {
            proof {
                lemma_find_pair_range(s, '[', '[', 0);
                lemma_find_pair_range(r, ']', ']', 0);
            }
            seq![trimmed(r.take(e))] + links(r.skip(e + 2))
        }
    }
}

/// Index of the first `a` directly followed by `b` in `v` at or after `from`.
fn find_pair_from(v: &Vec<char>, a: char, b: char, from: usize) -> (r: Option<usize>)
    requires
        from <= v.len(),
    ensures
        match r {
            Some(i) => find_pair(v@, a, b, from as int) == i,
            None => find_pair(v@, a, b, from as int) == -1,
        },
{
    let mut i = from;
    while v.len() > 0 && i < v.len() - 1
        invariant
            from <= i <= v.len(),
            find_pair(v@, a, b, from as int) == find_pair(v@, a, b, i as int),
        decreases v.len() - i,
    {
        if v[i] == a && v[i + 1] == b {
            return Some(i);
        }
        i += 1;
    }
    None
}

/// The `[[link]]` texts of `body`, trimmed, in order.
pub fn parse_links(body: &str) -> (r: Vec<String>)
    ensures
        r.deep_view() == links(body@),
{
    let v = chars_of(body);
    let mut out: Vec<String> = Vec::new();
    let mut pos: usize = 0;
    assert(v@.skip(0) == v@);
    loop
        invariant
            pos <= v.len(),
            v@ == body@,
            out.deep_view() + links(v@.skip(pos as int)) == links(v@),
        ensures
            out.deep_view() == links(v@),
        decreases v.len() - pos,
    {
        let ghost rest = v@.skip(pos as int);
        proof {
            lemma_find_pair_skip(v@, '[', '[', pos as int, 0);
        }
        match find_pair_from(&v, '[', '[', pos) {
            None => {
                assert(out.deep_view() == links(v@));
                break;
            },
            Some(i) => {
                proof {
                    lemma_find_pair_range(v@, '[', '[', pos as int);
                    lemma_find_pair_skip(v@, ']', ']', i + 2, 0);
                    assert(rest.skip(i - pos + 2) == v@.skip(i + 2));
                }
                match find_pair_from(&v, ']', ']', i + 2) {
                    None => {
                        assert(out.deep_view() == links(v@));
                        break;
                    },
                    Some(e) => {
                        proof {
                            lemma_find_pair_range(v@, ']', ']', i + 2);
                        }
                        let (a, b) = trim_bounds(&v, i + 2, e);
                        let link = string_of_range(&v, a, b);
                        let ghost r = v@.skip(i + 2);
                        proof {
                            assert(r.take(e - i - 2) == v@.subrange(i + 2, e as int));
                            assert(r.skip(e - i - 2 + 2) == v@.skip(e + 2));
                            assert(links(rest) == seq![link@] + links(v@.skip(e + 2)));
                        }
                        let ghost before = out.deep_view();
                        out.push(link);
                        assert(out.deep_view() == before.push(link@));
                        pos = e + 2;
                    },
                }
            },
        }
    }
    out
}

proof fn lemma_trim_start_suffix(s: Seq<char>)
    ensures
        trim_start(s).len() <= s.len(),
        trim_start(s) == s.skip(s.len() - trim_start(s).len()),
        trim_start(s).len() > 0 ==> !is_ws(trim_start(s)[0]),
    decreases s.len(),
{
    if s.len() > 0 && is_ws(s[0]) {
        lemma_trim_start_suffix(s.drop_first());
        assert(s.drop_first().skip(s.drop_first().len() - trim_start(s).len()) == s.skip(
            s.len() - trim_start(s).len(),
        ));
    } else {
        assert(s.skip(0) == s);
    }
}

proof fn lemma_trim_end_prefix(s: Seq<char>)
    ensures
        trim_end(s).len() <= s.len(),
        trim_end(s) == s.take(trim_end(s).len() as int),
        trim_end(s).len() > 0 ==> !is_ws(trim_end(s).last()),
    decreases s.len(),
{
    if s.len() > 0 && is_ws(s.last()) {
        lemma_trim_end_prefix(s.drop_last());
        assert(s.drop_last().take(trim_end(s).len() as int) == s.take(trim_end(s).len() as int));
    } else {
        assert(s.take(s.len() as int) == s);
    }
}

/// A trimmed text neither starts nor ends with white space, and trimming it
/// again changes nothing.
pub proof fn lemma_trimmed(s: Seq<char>)
    ensures
        trimmed(s).len() > 0 ==> !is_ws(trimmed(s)[0]) && !is_ws(trimmed(s).last()),
        trimmed(trimmed(s)) == trimmed(s),
{
    let u = trim_start(s);
    lemma_trim_start_suffix(s);
    lemma_trim_end_prefix(u);
    let t = trim_end(u);
    if t.len() > 0 {
        assert(t[0] == u[0]);
        lemma_trim_start_at(t, 0);
        assert(t.skip(0) == t);
        lemma_trim_end_at(t, t.len() as int);
        assert(t.take(t.len() as int) == t);
    }
}

/// Every word is a non-empty run of characters that are not white space.
pub proof fn lemma_words_are_runs(s: Seq<char>)
    ensures
        forall|i: int| 0 <= i < words(s).len() ==> (#[trigger] words(s)[i]).len() > 0 && forall|j: int|
            0 <= j < words(s)[i].len() ==> !is_ws(#[trigger] words(s)[i][j]),
    decreases s.len(),
{
    if s.len() > 0 {
        let p = s.drop_last();
        lemma_words_are_runs(p);
        let c = s.last();
        let w = words(p);
        if !is_ws(c) && p.len() > 0 && !is_ws(p.last()) {
            lemma_words_nonempty(p);
            let last = w.last();
            assert forall|i: int| 0 <= i < words(s).len() implies (#[trigger] words(s)[i]).len() > 0 && forall|j: int|
                0 <= j < words(s)[i].len() ==> !is_ws(#[trigger] words(s)[i][j]) by {
                if i == w.len() - 1 {
                    assert(words(s)[i] == last.push(c));
                    assert forall|j: int| 0 <= j < words(s)[i].len() implies !is_ws(#[trigger] words(s)[i][j]) by {
                        if j < last.len() {
                            assert(words(s)[i][j] == w[w.len() - 1][j]);
                        }
                    }
                } else {
                    assert(words(s)[i] == w[i]);
                }
            }
        } else if !is_ws(c) {
            assert forall|i: int| 0 <= i < words(s).len() implies (#[trigger] words(s)[i]).len() > 0 && forall|j: int|
                0 <= j < words(s)[i].len() ==> !is_ws(#[trigger] words(s)[i][j]) by {
                if i < w.len() {
                    assert(words(s)[i] == w[i]);
                }
            }
        }
    }
}

/// Every link text comes back trimmed: no white space at either end.
pub proof fn lemma_links_trimmed(s: Seq<char>)
    ensures
        forall|i: int| 0 <= i < links(s).len() ==> trimmed(#[trigger] links(s)[i]) == links(s)[i],
    decreases s.len(),
{
    let i = find_pair(s, '[', '[', 0);
    if i >= 0 {
        let r = s.skip(i + 2);
        let e = find_pair(r, ']', ']', 0);
        if e >= 0 {
            lemma_find_pair_range(s, '[', '[', 0);
            lemma_find_pair_range(r, ']', ']', 0);
            let rest = r.skip(e + 2);
            lemma_links_trimmed(rest);
            lemma_trimmed(r.take(e));
            assert forall|k: int| 0 <= k < links(s).len() implies trimmed(#[trigger] links(s)[k]) == links(s)[k] by {
                if k > 0 {
                    assert(links(s)[k] == links(rest)[k - 1]);
                }
            }
        }
    }
}

/// Whether `a` followed by `b` occurs at position `i` of `s`.
pub open spec fn pair_at(s: Seq<char>, i: int, a: char, b: char) -> bool {
    0 <= i && i + 1 < s.len() && s[i] == a && s[i + 1] == b
}

proof fn lemma_find_pair_first(s: Seq<char>, a: char, b: char, from: int, p: int)
    requires
        0 <= from <= p,
        pair_at(s, p, a, b),
        forall|i: int| from <= i < p ==> !pair_at(s, i, a, b),
    ensures
        find_pair(s, a, b, from) == p,
    decreases p - from,
{
    if from < p {
        assert(!pair_at(s, from, a, b));
        lemma_find_pair_first(s, a, b, from + 1, p);
    }
}

/// Each closed `[[...]]` gives one link: a text with no `[[` before it (and
/// not ending in `[`), then `[[`, a link text with no `]]` in it (and not
/// ending in `]`), then `]]` and any rest, has the trimmed link text as its
/// first link, followed by the links of the rest.
pub proof fn lemma_links_split(a: Seq<char>, t: Seq<char>, b: Seq<char>)
    requires
        forall|i: int| 0 <= i < a.len() ==> !pair_at(a, i, '[', '['),
        a.len() == 0 || a.last() != '[',
        forall|i: int| 0 <= i < t.len() ==> !pair_at(t, i, ']', ']'),
        t.len() == 0 || t.last() != ']',
    ensures
        links(a + seq!['[', '['] + t + seq![']', ']'] + b) == seq![trimmed(t)] + links(b),
{
    let s = a + seq!['[', '['] + t + seq![']', ']'] + b;
    let n = a.len() as int;
    assert forall|i: int| 0 <= i < n implies !pair_at(s, i, '[', '[') by {
        if i + 1 < n {
            assert(!pair_at(a, i, '[', '['));
            assert(s[i] == a[i] && s[i + 1] == a[i + 1]);
        } else {
            assert(s[i] == a[i] && s[i + 1] == '[');
        }
    }
    assert(pair_at(s, n, '[', '['));
    lemma_find_pair_first(s, '[', '[', 0, n);
    let r = s.skip(n + 2);
    assert(r == t + seq![']', ']'] + b);
    let m = t.len() as int;
    assert forall|i: int| 0 <= i < m implies !pair_at(r, i, ']', ']') by {
        if i + 1 < m {
            assert(!pair_at(t, i, ']', ']'));
            assert(r[i] == t[i] && r[i + 1] == t[i + 1]);
        } else {
            assert(r[i] == t[i] && r[i + 1] == ']');
        }
    }
    assert(pair_at(r, m, ']', ']'));
    lemma_find_pair_first(r, ']', ']', 0, m);
    assert(r.take(m) == t);
    assert(r.skip(m + 2) == b);
}

/// A text without white space, not empty, is a single word.
pub proof fn lemma_words_single(s: Seq<char>)
    requires
        s.len() > 0,
        forall|i: int| 0 <= i < s.len() ==> !is_ws(#[trigger] s[i]),
    ensures
        words(s) == seq![s],
    decreases s.len(),
{
    let p = s.drop_last();
    if p.len() > 0 {
        assert forall|i: int| 0 <= i < p.len() implies !is_ws(#[trigger] p[i]) by {
            assert(p[i] == s[i]);
        }
        lemma_words_single(p);
        assert(p.push(s.last()) == s);
        assert(p.last() == s[s.len() - 2]);
        lemma_words_push(p, s.last());
        assert(seq![p].update(0, p.push(s.last())) == seq![s]);
    } else {
        assert(p.push(s.last()) == s);
        lemma_words_push(p, s.last());
        assert(words(p) == Seq::<Seq<char>>::empty());
        assert(seq![s.last()] == s);
        assert(Seq::<Seq<char>>::empty().push(seq![s.last()]) == seq![s]);
    }
}

/// A white-space character splits a text: the words of `a`, a white-space
/// character `c`, then `b`, are the words of `a` followed by those of `b`.
pub proof fn lemma_words_split(a: Seq<char>, c: char, b: Seq<char>)
    requires
        is_ws(c),
    ensures
        words(a.push(c) + b) == words(a) + words(b),
    decreases b.len(),
{
    if b.len() == 0 {
        assert(a.push(c) + b == a.push(c));
        lemma_words_push(a, c);
        assert(words(a) + words(b) == words(a));
    } else {
        let bp = b.drop_last();
        let x = b.last();
        let pre = a.push(c) + bp;
        lemma_words_split(a, c, bp);
        assert(a.push(c) + b == pre.push(x));
        assert(bp.push(x) == b);
        lemma_words_push(pre, x);
        lemma_words_push(bp, x);
        if bp.len() > 0 {
            assert(pre.last() == bp.last());
        } else {
            assert(pre.last() == c);
        }
        let wa = words(a);
        let wb = words(bp);
        if !is_ws(x) && bp.len() > 0 && !is_ws(bp.last()) {
            let w = wa + wb;
            assert(w.update(w.len() - 1, w.last().push(x)) == wa + wb.update(wb.len() - 1, wb.last().push(x)));
        } else if !is_ws(x) {
            assert((wa + wb).push(seq![x]) == wa + wb.push(seq![x]));
        }
    }
}

} // verus!
