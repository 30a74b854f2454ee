//! Edges between notes: a note links to another when one of its `[[link]]`
//! texts normalises to the other note's normalised title.
use vstd::prelude::*;
use crate::text::{links, normalized, norm, parse_links};

verus! {

/// A note as the link scan reads it.
pub struct NoteText {
    pub id: i64,
    pub title: String,
    pub body: String,
}

/// A note reduced to what matching reads: its id, its normalised title and
/// the normalised texts of its links, in order.
pub struct NoteKeys {
    pub id: i64,
    pub title_key: String,
    pub link_keys: Vec<String>,
}

/// Model of a note for matching: (id, title key, link keys).
pub type KeysModel = (i64, Seq<char>, Seq<Seq<char>>);

impl View for NoteKeys {
    type V = KeysModel;

    open spec fn view(&self) -> KeysModel {
        (self.id, self.title_key@, self.link_keys.deep_view())
    }
}

impl View for NoteText {
    type V = (i64, Seq<char>, Seq<char>);

    open spec fn view(&self) -> (i64, Seq<char>, Seq<char>) {
        (self.id, self.title@, self.body@)
    }
}

pub open spec fn keys_view(v: Seq<NoteKeys>) -> Seq<KeysModel> {
    v.map_values(|k: NoteKeys| k@)
}

/// The keys of a note: its normalised title and normalised link texts.
pub open spec fn keys_of(n: (i64, Seq<char>, Seq<char>)) -> KeysModel {
    (n.0, normalized(n.1), links(n.2).map_values(|l: Seq<char>| normalized(l)))
}

pub open spec fn notes_keys(v: Seq<NoteText>) -> Seq<KeysModel> {
    v.map_values(|n: NoteText| keys_of(n@))
}

/// The id of the first note at or after `from` whose id is not `src` and
/// whose title key is `key`.
pub open spec fn first_target(notes: Seq<KeysModel>, src: i64, key: Seq<char>, from: int) -> Option<i64>
    decreases notes.len() - from,
{
    if from < 0 || from >= notes.len() {
        None
    } else if notes[from].0 != src && notes[from].1 == key {
        Some(notes[from].0)
    } else {
        first_target(notes, src, key, from + 1)
    }
}

/// The edges that the links `link_keys` of note `src` give, in order.
pub open spec fn edges_of_links(notes: Seq<KeysModel>, src: i64, link_keys: Seq<Seq<char>>) -> Seq<(i64, i64)>
    decreases link_keys.len(),
{
    if link_keys.len() == 0 {
        seq![]
    } else {
        let rest = edges_of_links(notes, src, link_keys.drop_last());
        match first_target(notes, src, link_keys.last(), 0) {
            Some(t) => rest.push((src, t)),
            None => rest,
        }
    }
}

/// The edges of the first `n` notes' links, in order, repeats included.
pub open spec fn candidate_edges(notes: Seq<KeysModel>, n: int) -> Seq<(i64, i64)>
    decreases n,
{
    if n <= 0 {
        seq![]
    } else {
        candidate_edges(notes, n - 1) + edges_of_links(notes, notes[n - 1].0, notes[n - 1].2)
    }
}

/// `s` with every element after its first occurrence removed.
pub open spec fn dedup(s: Seq<(i64, i64)>) -> Seq<(i64, i64)>
    decreases s.len(),
{
    if s.len() == 0 {
        seq![]
    } else {
        let d = dedup(s.drop_last());
        if d.contains(s.last()) {
            d
        } else {
            d.push(s.last())
        }
    }
}

/// The edge set of a collection of notes, each edge once, in the order it is first found.
pub open spec fn key_edges(notes: Seq<KeysModel>) -> Seq<(i64, i64)> {
    dedup(candidate_edges(notes, notes.len() as int))
}

/// The first note, other than `src`, whose title key is `key`.
fn find_target(notes: &Vec<NoteKeys>, src: i64, key: &String) -> (r: Option<i64>)
    ensures
        r == first_target(keys_view(notes@), src, key@, 0),
{
    let ghost kv = keys_view(notes@);
    let mut j: usize = 0;
    while j < notes.len()
        invariant
            j <= notes.len(),
            kv == keys_view(notes@),
            first_target(kv, src, key@, 0) == first_target(kv, src, key@, j as int),
        decreases notes.len() - j,
    {
        let n = &notes[j];
        assert(kv[j as int] == n@);
        if n.id != src && n.title_key == *key {
            return Some(n.id);
        }
        j += 1;
    }
    None
}

fn contains_edge(v: &Vec<(i64, i64)>, e: (i64, i64)) -> (r: bool)
    ensures
        r == v@.contains(e),
{
    let mut j: usize = 0;
    while j < v.len()
        invariant
            j <= v.len(),
            forall|k: int| 0 <= k < j ==> v@[k] != e,
        decreases v.len() - j,
    {
        if v[j].0 == e.0 && v[j].1 == e.1 {
            assert(v@[j as int] == e);
            return true;
        }
        j += 1;
    }
    false
}

/// The edges between notes given by their keys: for each note in order and
/// each of its link keys in order, an edge to the first other note whose
/// title key equals it; each edge kept once, at its first finding.
pub fn edges_from_keys(notes: &Vec<NoteKeys>) -> (r: Vec<(i64, i64)>)
    ensures
        r@ == key_edges(keys_view(notes@)),
{
    let ghost kv = keys_view(notes@);
    let mut out: Vec<(i64, i64)> = Vec::new();
    let mut k: usize = 0;
    while k < notes.len()
        invariant
            k <= notes.len(),
            kv == keys_view(notes@),
            out@ == dedup(candidate_edges(kv, k as int)),
        decreases notes.len() - k,
    {
        let n = &notes[k];
        let ghost before = candidate_edges(kv, k as int);
        assert(kv[k as int] == n@);
        let mut l: usize = 0;
        assert(n@.2.take(0) == Seq::<Seq<char>>::empty());
        while l < n.link_keys.len()
            invariant
                l <= n.link_keys.len(),
                kv == keys_view(notes@),
                n@ == kv[k as int],
                before == candidate_edges(kv, k as int),
                out@ == dedup(before + edges_of_links(kv, n.id, n@.2.take(l as int))),
            decreases n.link_keys.len() - l,
        {
            let ghost prev = before + edges_of_links(kv, n.id, n@.2.take(l as int));
            assert(n@.2.take(l + 1).drop_last() == n@.2.take(l as int));
            assert(n@.2.take(l + 1).last() == n.link_keys@[l as int]@);
            match find_target(notes, n.id, &n.link_keys[l]) {
                Some(t) => {
                    let e = (n.id, t);
                    assert(before + edges_of_links(kv, n.id, n@.2.take(l + 1)) == prev.push(e));
                    assert(prev.push(e).drop_last() == prev);
                    if !contains_edge(&out, e) {
                        out.push(e);
                    }
                },
                None => {
                    assert(before + edges_of_links(kv, n.id, n@.2.take(l + 1)) == prev);
                },
            }
            l += 1;
        }
        assert(n@.2.take(n.link_keys.len() as int) == n@.2);
        k += 1;
    }
    out
}

/// The keys of one note.
pub fn note_keys(note: &NoteText) -> (r: NoteKeys)
    ensures
        r@ == keys_of(note@),
{
    let title_key = norm(note.title.as_str());
    let texts = parse_links(note.body.as_str());
    let ghost ls = links(note.body@);
    let mut link_keys: Vec<String> = Vec::new();
    let mut i: usize = 0;
    while i < texts.len()
        invariant
            i <= texts.len(),
            texts.deep_view() == ls,
            link_keys.deep_view() == ls.take(i as int).map_values(|l: Seq<char>| normalized(l)),
        decreases texts.len() - i,
    {
        let key = norm(texts[i].as_str());
        let ghost before = link_keys.deep_view();
        link_keys.push(key);
        assert(ls.take(i + 1).map_values(|l: Seq<char>| normalized(l)) == before.push(normalized(ls[i as int])));
        i += 1;
    }
    assert(ls.take(texts.len() as int) == ls);
    NoteKeys { id: note.id, title_key, link_keys }
}

/// The edges between notes: a note links to the first other note whose
/// normalised title equals the normalised text of one of its `[[links]]`;
/// each edge once, in the order it is first found.
pub fn link_edges(notes: &Vec<NoteText>) -> (r: Vec<(i64, i64)>)
    ensures
        r@ == key_edges(notes_keys(notes@)),
{
    let mut keys: Vec<NoteKeys> = Vec::new();
    let mut i: usize = 0;
    while i < notes.len()
        invariant
            i <= notes.len(),
            keys_view(keys@) == notes_keys(notes@.take(i as int)),
        decreases notes.len() - i,
    {
        let k = note_keys(&notes[i]);
        let ghost before = keys@;
        keys.push(k);
        assert(keys@ == before.push(k));
        assert(keys_view(keys@) == keys_view(before).push(k@));
        assert(notes@.take(i + 1) == notes@.take(i as int).push(notes@[i as int]));
        assert(notes_keys(notes@.take(i + 1)) == notes_keys(notes@.take(i as int)).push(keys_of(notes@[i as int]@)));
        i += 1;
    }
    assert(notes@.take(notes.len() as int) == notes@);
    edges_from_keys(&keys)
}

proof fn lemma_push_contains(t: Seq<(i64, i64)>, y: (i64, i64), x: (i64, i64))
    ensures
        t.push(y).contains(x) <==> (t.contains(x) || x == y),
{
    if t.push(y).contains(x) && x != y {
        let i = choose|i: int| 0 <= i < t.push(y).len() && t.push(y)[i] == x;
        assert(t[i] == x);
    }
    if t.contains(x) {
        let i = choose|i: int| 0 <= i < t.len() && t[i] == x;
        assert(t.push(y)[i] == x);
    }
    if x == y {
        assert(t.push(y)[t.len() as int] == x);
    }
}

proof fn lemma_dedup_contains(s: Seq<(i64, i64)>, x: (i64, i64))
    ensures
        dedup(s).contains(x) <==> s.contains(x),
    decreases s.len(),
{
    if s.len() > 0 {
        let p = s.drop_last();
        let c = s.last();
        lemma_dedup_contains(p, x);
        lemma_dedup_contains(p, c);
        assert(s == p.push(c));
        lemma_push_contains(p, c, x);
        lemma_push_contains(dedup(p), c, x);
    }
}

proof fn lemma_dedup_distinct(s: Seq<(i64, i64)>)
    ensures
        forall|i: int, j: int| 0 <= i < j < dedup(s).len() ==> dedup(s)[i] != dedup(s)[j],
    decreases s.len(),
{
    if s.len() > 0 {
        lemma_dedup_distinct(s.drop_last());
        let d = dedup(s.drop_last());
        if !d.contains(s.last()) {
            assert forall|i: int, j: int| 0 <= i < j < d.push(s.last()).len() implies d.push(s.last())[i]
                != d.push(s.last())[j] by {
                if j == d.len() {
                    if d[i] == s.last() {
                        assert(d.contains(s.last()));
                    }
                }
            }
        }
    }
}

/// Whether note `j` is one a link of `src` with key `key` may lead to:
/// another note whose title key is `key`.
pub open spec fn is_match(notes: Seq<KeysModel>, src: i64, key: Seq<char>, j: int) -> bool {
    notes[j].0 != src && notes[j].1 == key
}

/// What `first_target` finds is the first note at or after `from`, other
/// than the source, whose title key is the key; it finds nothing exactly
/// when there is no such note.
pub proof fn lemma_first_target(notes: Seq<KeysModel>, src: i64, key: Seq<char>, from: int)
    requires
        0 <= from,
    ensures
        first_target(notes, src, key, from) matches Some(t) ==> t != src && exists|j: int|
            from <= j < notes.len() && notes[j].0 == t && notes[j].1 == key && forall|i: int|
                from <= i < j ==> !is_match(notes, src, key, i),
        first_target(notes, src, key, from) is None ==> forall|j: int|
            from <= j < notes.len() ==> !is_match(notes, src, key, j),
    decreases notes.len() - from,
{
    if from < notes.len() {
        if !(notes[from].0 != src && notes[from].1 == key) {
            lemma_first_target(notes, src, key, from + 1);
            if let Some(t) = first_target(notes, src, key, from) {
                let j = choose|j: int|
                    from + 1 <= j < notes.len() && notes[j].0 == t && notes[j].1 == key && forall|i: int|
                        from + 1 <= i < j ==> !is_match(notes, src, key, i);
                assert(forall|i: int| from <= i < j ==> !is_match(notes, src, key, i));
            }
        } else {
            assert(notes[from].0 == notes[from].0);
        }
    }
}

/// Every link that matches some other note gives an edge: if note `k` has
/// link key number `l`, and note `j` (not note `k`'s id) has that key as its
/// title, then an edge from note `k`'s id goes to a note with that title,
/// the first such note in order (which is `j` or one before it).
pub proof fn lemma_edges_complete(notes: Seq<KeysModel>, k: int, l: int, j: int)
    requires
        0 <= k < notes.len(),
        0 <= l < notes[k].2.len(),
        0 <= j < notes.len(),
        is_match(notes, notes[k].0, notes[k].2[l], j),
    ensures
        exists|j2: int|
            #![trigger notes[j2]]
            0 <= j2 <= j && is_match(notes, notes[k].0, notes[k].2[l], j2) && key_edges(notes).contains(
                (notes[k].0, notes[j2].0),
            ) && forall|i: int| 0 <= i < j2 ==> !is_match(notes, notes[k].0, notes[k].2[l], i),
{
    let src = notes[k].0;
    let key = notes[k].2[l];
    lemma_first_target(notes, src, key, 0);
    let t = first_target(notes, src, key, 0)->0;
    let j2 = choose|j2: int|
        0 <= j2 < notes.len() && notes[j2].0 == t && notes[j2].1 == key && forall|i: int|
            0 <= i < j2 ==> !is_match(notes, src, key, i);
    lemma_edges_exact(notes, (src, t));
    assert(0 <= k < notes.len() && 0 <= l < notes[k].2.len() && notes[k].0 == src && first_target(
        notes,
        src,
        notes[k].2[l],
        0,
    ) == Some(t));
    if j2 > j {
        assert(!is_match(notes, src, key, j));
    }
    assert(notes[j2].0 == t);
}

proof fn lemma_edges_of_links_contains(notes: Seq<KeysModel>, src: i64, ls: Seq<Seq<char>>, e: (i64, i64))
    ensures
        edges_of_links(notes, src, ls).contains(e) <==> (e.0 == src && exists|l: int|
            0 <= l < ls.len() && first_target(notes, src, #[trigger] ls[l], 0) == Some(e.1)),
    decreases ls.len(),
{
    if ls.len() > 0 {
        let p = ls.drop_last();
        lemma_edges_of_links_contains(notes, src, p, e);
        let rest = edges_of_links(notes, src, p);
        let here = first_target(notes, src, ls.last(), 0);
        if edges_of_links(notes, src, ls).contains(e) {
            if rest.contains(e) {
                let l = choose|l: int| 0 <= l < p.len() && first_target(notes, src, #[trigger] p[l], 0) == Some(e.1);
                assert(ls[l] == p[l]);
            } else {
                let i = choose|i: int| 0 <= i < edges_of_links(notes, src, ls).len() && edges_of_links(notes, src, ls)[i] == e;
                if i < rest.len() {
                    assert(rest[i] == e);
                }
                assert(ls[ls.len() - 1] == ls.last());
            }
        }
        if e.0 == src && exists|l: int| 0 <= l < ls.len() && first_target(notes, src, #[trigger] ls[l], 0) == Some(e.1) {
            let l = choose|l: int| 0 <= l < ls.len() && first_target(notes, src, #[trigger] ls[l], 0) == Some(e.1);
            if l < p.len() {
                assert(p[l] == ls[l]);
                let i = choose|i: int| 0 <= i < rest.len() && rest[i] == e;
                match here {
                    Some(t) => { assert(rest.push((src, t))[i] == e); },
                    None => {},
                }
            } else {
                assert(rest.push((src, e.1))[rest.len() as int] == e);
            }
        }
    }
}

proof fn lemma_candidate_contains(notes: Seq<KeysModel>, n: int, e: (i64, i64))
    requires
        0 <= n <= notes.len(),
    ensures
        candidate_edges(notes, n).contains(e) <==> exists|k: int, l: int|
            0 <= k < n && 0 <= l < notes[k].2.len() && notes[k].0 == e.0
                && first_target(notes, e.0, #[trigger] notes[k].2[l], 0) == Some(e.1),
    decreases n,
{
    if n > 0 {
        lemma_candidate_contains(notes, n - 1, e);
        let a = candidate_edges(notes, n - 1);
        let b = edges_of_links(notes, notes[n - 1].0, notes[n - 1].2);
        lemma_edges_of_links_contains(notes, notes[n - 1].0, notes[n - 1].2, e);
        if (a + b).contains(e) {
            let i = choose|i: int| 0 <= i < (a + b).len() && (a + b)[i] == e;
            if i < a.len() {
                assert(a[i] == e);
            } else {
                assert(b[i - a.len()] == e);
                let l = choose|l: int| 0 <= l < notes[n - 1].2.len() && first_target(notes, notes[n - 1].0, #[trigger] notes[n - 1].2[l], 0) == Some(e.1);
                assert(0 <= n - 1 < n && 0 <= l < notes[n - 1].2.len() && notes[n - 1].0 == e.0
                    && first_target(notes, e.0, notes[n - 1].2[l], 0) == Some(e.1));
            }
        }
        if exists|k: int, l: int|
            0 <= k < n && 0 <= l < notes[k].2.len() && notes[k].0 == e.0
                && first_target(notes, e.0, #[trigger] notes[k].2[l], 0) == Some(e.1) {
            let (k, l) = choose|k: int, l: int|
                0 <= k < n && 0 <= l < notes[k].2.len() && notes[k].0 == e.0
                    && first_target(notes, e.0, #[trigger] notes[k].2[l], 0) == Some(e.1);
            if k < n - 1 {
                let i = choose|i: int| 0 <= i < a.len() && a[i] == e;
                assert((a + b)[i] == e);
            } else {
                assert(b.contains(e));
                let i = choose|i: int| 0 <= i < b.len() && b[i] == e;
                assert((a + b)[a.len() + i] == e);
            }
        }
    }
}

/// No edge is listed twice.
pub proof fn lemma_edges_distinct(notes: Seq<KeysModel>)
    ensures
        forall|i: int, j: int| 0 <= i < j < key_edges(notes).len() ==> key_edges(notes)[i] != key_edges(notes)[j],
{
    lemma_dedup_distinct(candidate_edges(notes, notes.len() as int));
}

/// An edge is listed exactly when some note with the edge's source id has a
/// link key whose first match, among the other notes, has the edge's target id.
pub proof fn lemma_edges_exact(notes: Seq<KeysModel>, e: (i64, i64))
    ensures
        key_edges(notes).contains(e) <==> exists|k: int, l: int|
            0 <= k < notes.len() && 0 <= l < notes[k].2.len() && notes[k].0 == e.0
                && first_target(notes, e.0, #[trigger] notes[k].2[l], 0) == Some(e.1),
{
    lemma_dedup_contains(candidate_edges(notes, notes.len() as int), e);
    lemma_candidate_contains(notes, notes.len() as int, e);
}

/// No note links to itself, and every edge ends at a note whose title key
/// equals a link key of a note with the edge's source id.
pub proof fn lemma_edges_sound(notes: Seq<KeysModel>, e: (i64, i64))
    requires
        key_edges(notes).contains(e),
    ensures
        e.0 != e.1,
        exists|k: int, l: int, j: int|
            #![trigger notes[k].2[l], notes[j]]
            0 <= k < notes.len() && 0 <= l < notes[k].2.len() && 0 <= j < notes.len() && notes[k].0 == e.0
                && notes[j].0 == e.1 && notes[j].1 == notes[k].2[l],
{
    lemma_edges_exact(notes, e);
    let (k, l) = choose|k: int, l: int|
        0 <= k < notes.len() && 0 <= l < notes[k].2.len() && notes[k].0 == e.0
            && first_target(notes, e.0, #[trigger] notes[k].2[l], 0) == Some(e.1);
    lemma_first_target(notes, e.0, notes[k].2[l], 0);
    let j = choose|j: int| 0 <= j < notes.len() && notes[j].0 == e.1 && notes[j].1 == notes[k].2[l];
    assert(notes[j].1 == notes[k].2[l]);
}

} // verus!
