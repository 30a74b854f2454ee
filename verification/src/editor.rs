//! The note editor: the notes on the board, the palette cursor, and the
//! writing overlay with its drafts. Storage, drawing and physics stand
//! outside; this state machine says what each user action does.
use vstd::prelude::*;
use crate::text::{trim, trimmed, is_ws};

verus! {

/// Number of colours in the palette; a note's colour is an index below it.
pub const PALETTE_LEN: usize = 8;

/// A note on the board.
pub struct Note {
    pub id: i64,
    pub title: String,
    pub body: String,
    /// Index into the palette.
    pub color: usize,
}

/// A stored note as read back: its colour index as stored.
pub struct NoteRow {
    pub id: i64,
    pub title: String,
    pub body: String,
    pub color_idx: i64,
}

/// What a commit of the overlay asks storage to do.
pub enum Commit {
    /// Rewrite the title and body of the note with this id.
    Update { id: i64, title: String, body: String },
    /// Store a new note with this colour; its id is then handed to `add_note`.
    Insert { title: String, body: String, color: usize },
}

pub struct NoteView {
    pub id: i64,
    pub title: Seq<char>,
    pub body: Seq<char>,
    pub color: usize,
}

pub enum CommitView {
    Update { id: i64, title: Seq<char>, body: Seq<char> },
    Insert { title: Seq<char>, body: Seq<char>, color: usize },
}

pub struct EditorView {
    pub notes: Seq<NoteView>,
    /// Palette index that the next new note takes.
    pub color_idx: usize,
    /// Whether the writing overlay is open.
    pub modal: bool,
    /// Whether the title field is to take the keyboard focus.
    pub focus_title: bool,
    pub draft_title: Seq<char>,
    pub draft_body: Seq<char>,
    /// The note being edited; `None` while writing a new one.
    pub editing: Option<i64>,
    /// The note whose local view is shown, if any.
    pub selected: Option<i64>,
}

impl View for Note {
    type V = NoteView;

    open spec fn view(&self) -> NoteView {
        NoteView { id: self.id, title: self.title@, body: self.body@, color: self.color }
    }
}

impl View for Commit {
    type V = CommitView;

    open spec fn view(&self) -> CommitView {
        match self {
            Commit::Update { id, title, body } => CommitView::Update { id: *id, title: title@, body: body@ },
            Commit::Insert { title, body, color } => CommitView::Insert {
                title: title@,
                body: body@,
                color: *color,
            },
        }
    }
}

/// The editor's state.
pub struct Editor {
    notes: Vec<Note>,
    color_idx: usize,
    modal: bool,
    focus_title: bool,
    draft_title: String,
    draft_body: String,
    editing: Option<i64>,
    selected: Option<i64>,
}

impl View for Editor {
    type V = EditorView;

    closed spec fn view(&self) -> EditorView {
        EditorView {
            notes: self.notes@.map_values(|n: Note| n@),
            color_idx: self.color_idx,
            modal: self.modal,
            focus_title: self.focus_title,
            draft_title: self.draft_title@,
            draft_body: self.draft_body@,
            editing: self.editing,
            selected: self.selected,
        }
    }
}

/// Every palette index in the state is inside the palette.
pub open spec fn colors_in_palette(v: EditorView) -> bool {
    &&& v.color_idx < PALETTE_LEN
    &&& forall|i: int| 0 <= i < v.notes.len() ==> #[trigger] v.notes[i].color < PALETTE_LEN
}

/// Index of the first note with this id, or -1.
pub open spec fn index_of(notes: Seq<NoteView>, id: i64) -> int
    decreases notes.len(),
{
    if notes.len() == 0 {
        -1
    } else if index_of(notes.drop_last(), id) >= 0 {
        index_of(notes.drop_last(), id)
    } else if notes.last().id == id {
        notes.len() - 1
    } else {
        -1
    }
}

/// Ctrl+N: open an empty overlay for a new note, unless one is open.
pub open spec fn request_new_spec(v: EditorView) -> EditorView {
    if v.modal {
        v
    } else {
        EditorView {
            editing: None,
            modal: true,
            focus_title: true,
            draft_title: seq![],
            draft_body: seq![],
            ..v
        }
    }
}

/// Open the overlay on the note with this id, when there is one.
pub open spec fn open_edit_spec(v: EditorView, id: i64) -> EditorView {
    let i = index_of(v.notes, id);
    if i < 0 {
        v
    } else {
        EditorView {
            draft_title: v.notes[i].title,
            draft_body: v.notes[i].body,
            editing: Some(id),
            modal: true,
            focus_title: false,
            ..v
        }
    }
}

/// The state after a commit of the overlay.
pub open spec fn commit_state(v: EditorView) -> EditorView {
    let title = trimmed(v.draft_title);
    let closed = EditorView { draft_body: seq![], editing: None, modal: false, ..v };
    match v.editing {
        Some(id) => {
            let i = index_of(v.notes, id);
            if i < 0 {
                closed
            } else {
                EditorView {
                    notes: v.notes.update(i, NoteView { title, body: v.draft_body, ..v.notes[i] }),
                    ..closed
                }
            }
        },
        None => EditorView { color_idx: ((v.color_idx + 1) % (PALETTE_LEN as int)) as usize, ..closed },
    }
}

/// What a commit of the overlay asks storage to do.
pub open spec fn commit_action(v: EditorView) -> CommitView {
    match v.editing {
        Some(id) => CommitView::Update { id, title: trimmed(v.draft_title), body: v.draft_body },
        None => CommitView::Insert { title: trimmed(v.draft_title), body: v.draft_body, color: v.color_idx },
    }
}

/// Whether the drafts can be saved: the title has a character other than white space.
pub open spec fn can_save(v: EditorView) -> bool {
    trimmed(v.draft_title).len() > 0
}

/// The overlay's keys: Ctrl+Enter (`save`) commits when the title is not
/// blank; Esc (`escape`) saves and returns: it commits when the title is not
/// blank, and closes the overlay in any case.
pub open spec fn finish_state(v: EditorView, save: bool, escape: bool) -> EditorView {
    if !v.modal {
        v
    } else {
        let v1 = if (save || escape) && can_save(v) { commit_state(v) } else { v };
        if escape {
            EditorView { editing: None, modal: false, ..v1 }
        } else {
            v1
        }
    }
}

pub open spec fn finish_action(v: EditorView, save: bool, escape: bool) -> Option<CommitView> {
    if v.modal && (save || escape) && can_save(v) {
        Some(commit_action(v))
    } else {
        None
    }
}

/// A click on a note: the first click selects the note and shows its local
/// view; a click on the note already selected opens the overlay on it. A
/// click that ends while the overlay is open (the press began before it
/// opened) moves the overlay to that note. Clicks on unknown ids do nothing.
pub open spec fn click_spec(v: EditorView, id: i64) -> EditorView {
    if index_of(v.notes, id) < 0 {
        v
    } else if v.modal || v.selected == Some(id) {
        open_edit_spec(v, id)
    } else {
        EditorView { selected: Some(id), ..v }
    }
}

/// The state after a stored note is put on the board.
pub open spec fn add_note_state(v: EditorView, n: NoteView) -> EditorView {
    EditorView { notes: v.notes.push(n), ..v }
}

/// The notes that stored rows give, each colour index read modulo the palette size.
pub open spec fn loaded_note(r: (i64, Seq<char>, Seq<char>, i64)) -> NoteView {
    NoteView { id: r.0, title: r.1, body: r.2, color: ((r.3 as int) % (PALETTE_LEN as int)) as usize }
}

impl View for NoteRow {
    type V = (i64, Seq<char>, Seq<char>, i64);

    open spec fn view(&self) -> (i64, Seq<char>, Seq<char>, i64) {
        (self.id, self.title@, self.body@, self.color_idx)
    }
}

impl Editor {
    #[verifier::type_invariant]
    spec fn inv(self) -> bool {
        colors_in_palette(self@)
    }

    /// The board after loading stored notes: the palette cursor continues
    /// after them, and the overlay is closed with empty drafts.
    pub fn load(rows: Vec<NoteRow>) -> (r: Editor)
        ensures
            r@.notes == rows@.map_values(|row: NoteRow| loaded_note(row@)),
            r@.color_idx == (rows@.len() as int) % (PALETTE_LEN as int),
            !r@.modal,
            !r@.focus_title,
            r@.draft_title == Seq::<char>::empty(),
            r@.draft_body == Seq::<char>::empty(),
            r@.editing is None,
            r@.selected is None,
    {
        let mut notes: Vec<Note> = Vec::new();
        let mut rows = rows;
        let ghost all = rows@;
        let n = rows.len();
        let mut i: usize = 0;
        while rows.len() > 0
            invariant
                i <= n == all.len(),
                rows@ == all.skip(i as int),
                notes@.len() == i,
                forall|k: int| 0 <= k < i ==> #[trigger] notes@[k]@ == loaded_note(all[k]@),
                forall|k: int| 0 <= k < i ==> (#[trigger] notes@[k]).color < PALETTE_LEN,
            decreases rows.len(),
        {
            let row = rows.remove(0);
            assert(row == all[i as int]);
            assert(rows@ == all.skip(i + 1));
            let color = (row.color_idx as usize) % PALETTE_LEN;
            proof {
                let c = row.color_idx;
                assert(((c as usize) as int) % 8 == (c as int) % 8) by (bit_vector);
            }
            notes.push(Note { id: row.id, title: row.title, body: row.body, color });
            i += 1;
        }
        assert(notes@.map_values(|n: Note| n@) == all.map_values(|row: NoteRow| loaded_note(row@)));
        let color_idx = n % PALETTE_LEN;
        Editor {
            notes,
            color_idx,
            modal: false,
            focus_title: false,
            draft_title: String::new(),
            draft_body: String::new(),
            editing: None,
            selected: None,
        }
    }

    /// The notes on the board, in order.
    pub fn notes(&self) -> (r: &Vec<Note>)
        ensures
            r@.map_values(|n: Note| n@) == self@.notes,
    {
        &self.notes
    }

    /// Whether the writing overlay is open.
    pub fn is_modal(&self) -> (r: bool)
        ensures
            r == self@.modal,
    {
        self.modal
    }

    /// The palette index that the next new note takes.
    pub fn color_idx(&self) -> (r: usize)
        ensures
            r == self@.color_idx,
            r < PALETTE_LEN,
    {
        proof {
            use_type_invariant(self);
        }
        self.color_idx
    }

    /// The note being edited, if any.
    pub fn editing(&self) -> (r: Option<i64>)
        ensures
            r == self@.editing,
    {
        self.editing
    }

    pub fn draft_title(&self) -> (r: &String)
        ensures
            r@ == self@.draft_title,
    {
        &self.draft_title
    }

    pub fn draft_body(&self) -> (r: &String)
        ensures
            r@ == self@.draft_body,
    {
        &self.draft_body
    }

    /// Replaces the drafts with what the overlay's fields now hold.
    pub fn set_drafts(&mut self, title: String, body: String)
        ensures
            final(self)@ == (EditorView { draft_title: title@, draft_body: body@, ..old(self)@ }),
    {
        proof {
            use_type_invariant(&*self);
        }
        self.draft_title = title;
        self.draft_body = body;
    }

    /// Ctrl+N: opens an empty overlay for a new note, unless the overlay is open.
    pub fn request_new(&mut self)
        ensures
            final(self)@ == request_new_spec(old(self)@),
    {
        proof {
            use_type_invariant(&*self);
        }
        if !self.modal {
            self.editing = None;
            self.modal = true;
            self.focus_title = true;
            self.draft_title = String::new();
            self.draft_body = String::new();
        }
    }

    /// Position of the first note with this id.
    fn find_note(&self, id: i64) -> (r: Option<usize>)
        ensures
            match r {
                Some(i) => index_of(self@.notes, id) == i && i < self@.notes.len(),
                None => index_of(self@.notes, id) == -1,
            },
    {
        let ghost ns = self@.notes;
        let mut j: usize = 0;
        assert(ns.take(0) == Seq::<NoteView>::empty());
        while j < self.notes.len()
            invariant
                j <= self.notes.len() == ns.len(),
                ns == self@.notes,
                index_of(ns.take(j as int), id) == -1,
            decreases self.notes.len() - j,
        {
            assert(ns.take(j + 1).drop_last() == ns.take(j as int));
            assert(ns[j as int] == self.notes@[j as int]@);
            if self.notes[j].id == id {
                proof {
                    lemma_index_of_prefix(ns, j as int + 1, id);
                }
                return Some(j);
            }
            j += 1;
        }
        assert(ns.take(ns.len() as int) == ns);
        None
    }

    /// Opens the overlay on the note with this id, with its title and body as
    /// drafts; nothing happens when no note has the id.
    pub fn open_edit(&mut self, id: i64)
        ensures
            final(self)@ == open_edit_spec(old(self)@, id),
    {
        proof {
            use_type_invariant(&*self);
        }
        match self.find_note(id) {
            Some(i) => {
                let title = self.notes[i].title.clone();
                let body = self.notes[i].body.clone();
                self.draft_title = title;
                self.draft_body = body;
                self.editing = Some(id);
                self.modal = true;
                self.focus_title = false;
            },
            None => {},
        }
    }

    /// Commits the overlay: the edited note takes the trimmed title and the
    /// body, or, for a new note, the palette cursor moves on; the body draft
    /// is emptied and the overlay closes. Returns what storage is to do.
    pub fn commit(&mut self) -> (c: Commit)
        ensures
            final(self)@ == commit_state(old(self)@),
            c@ == commit_action(old(self)@),
    {
        proof {
            use_type_invariant(&*self);
        }
        let title = trim(self.draft_title.as_str());
        let mut body = String::new();
        std::mem::swap(&mut body, &mut self.draft_body);
        let editing = self.editing;
        self.editing = None;
        self.modal = false;
        match editing {
            Some(id) => {
                match self.find_note(id) {
                    Some(i) => {
                        let color = self.notes[i].color;
                        let note = Note { id: self.notes[i].id, title: title.clone(), body: body.clone(), color };
                        let mut notes: Vec<Note> = Vec::new();
                        std::mem::swap(&mut notes, &mut self.notes);
                        let ghost before = notes@;
                        notes.set(i, note);
                        assert(notes@.map_values(|n: Note| n@) == before.map_values(|n: Note| n@).update(
                            i as int,
                            note@,
                        ));
                        self.notes = notes;
                    },
                    None => {},
                }
                Commit::Update { id, title, body }
            },
            None => {
                let color = self.color_idx;
                self.color_idx = (color + 1) % PALETTE_LEN;
                Commit::Insert { title, body, color }
            },
        }
    }

    /// The overlay's keys: with `save` (Ctrl+Enter) or `escape` (Esc) and a
    /// title that is not blank the overlay is committed; `escape` then closes
    /// it, blank title or not. Nothing happens while the overlay is closed.
    pub fn finish(&mut self, save: bool, escape: bool) -> (r: Option<Commit>)
        ensures
            final(self)@ == finish_state(old(self)@, save, escape),
            match r {
                Some(c) => finish_action(old(self)@, save, escape) == Some(c@),
                None => finish_action(old(self)@, save, escape) is None,
            },
    {
        proof {
            use_type_invariant(&*self);
        }
        if !self.modal {
            return None;
        }
        let mut out: Option<Commit> = None;
        if (save || escape) && has_visible_char(&self.draft_title) {
            out = Some(self.commit());
            proof {
                use_type_invariant(&*self);
            }
        }
        if escape {
            self.editing = None;
            self.modal = false;
        }
        out
    }

    /// A click on a note: selects it (its local view) on the first click,
    /// and opens the overlay on it when it is already selected or when the
    /// overlay is already open.
    pub fn click_note(&mut self, id: i64)
        ensures
            final(self)@ == click_spec(old(self)@, id),
    {
        proof {
            use_type_invariant(&*self);
        }
        match self.find_note(id) {
            None => {},
            Some(_) => {
                if self.modal || self.selected == Some(id) {
                    self.open_edit(id);
                } else {
                    self.selected = Some(id);
                }
            },
        }
    }

    /// The note whose local view is shown, if any.
    pub fn selected(&self) -> (r: Option<i64>)
        ensures
            r == self@.selected,
    {
        self.selected
    }

    /// Puts a stored note on the board.
    pub fn add_note(&mut self, note: Note)
        requires
            note.color < PALETTE_LEN,
        ensures
            final(self)@ == add_note_state(old(self)@, note@),
    {
        proof {
            use_type_invariant(&*self);
        }
        let mut notes: Vec<Note> = Vec::new();
        std::mem::swap(&mut notes, &mut self.notes);
        let ghost before = notes@;
        notes.push(note);
        assert(notes@.map_values(|n: Note| n@) == before.map_values(|n: Note| n@).push(note@));
        self.notes = notes;
    }

    /// Whether the title field takes the focus this frame; the request is
    /// used up.
    pub fn take_title_focus(&mut self) -> (r: bool)
        ensures
            r == old(self)@.focus_title,
            final(self)@ == (EditorView { focus_title: false, ..old(self)@ }),
    {
        proof {
            use_type_invariant(&*self);
        }
        let r = self.focus_title;
        self.focus_title = false;
        r
    }

    /// Whether the body field takes the focus: when editing a stored note
    /// and the title is not asking for it.
    pub fn body_takes_focus(&self) -> (r: bool)
        ensures
            r == (self@.editing is Some && !self@.focus_title),
    {
        self.editing.is_some() && !self.focus_title
    }

    /// Whether the empty board shows its hint: no notes and no overlay.
    pub fn shows_hint(&self) -> (r: bool)
        ensures
            r == (self@.notes.len() == 0 && !self@.modal),
    {
        self.notes.len() == 0 && !self.modal
    }

    /// Number of words in the body draft.
    pub fn draft_word_count(&self) -> (r: usize)
        ensures
            r == crate::text::words(self@.draft_body).len(),
    {
        crate::text::word_count(self.draft_body.as_str())
    }
}

/// Whether `s` holds a character other than white space, i.e. `s.trim()` is not empty.
pub fn has_visible_char(s: &String) -> (r: bool)
    ensures
        r == (trimmed(s@).len() > 0),
{
    let t = trim(s.as_str());
    t.as_str().unicode_len() > 0
}

/// The first index with the id, in a prefix that ends at a note with it.
proof fn lemma_index_of_prefix(ns: Seq<NoteView>, j: int, id: i64)
    requires
        0 < j <= ns.len(),
        ns[j - 1].id == id,
        index_of(ns.take(j - 1), id) == -1,
    ensures
        index_of(ns, id) == j - 1,
    decreases ns.len(),
{
    if j < ns.len() {
        assert(ns.drop_last().take(j - 1) == ns.take(j - 1));
        assert(ns.drop_last()[j - 1] == ns[j - 1]);
        lemma_index_of_prefix(ns.drop_last(), j, id);
    } else {
        assert(ns.drop_last() == ns.take(j - 1));
    }
}

/// `index_of` reads only the ids.
proof fn lemma_index_of_ids(a: Seq<NoteView>, b: Seq<NoteView>, id: i64)
    requires
        a.len() == b.len(),
        forall|i: int| 0 <= i < a.len() ==> #[trigger] a[i].id == b[i].id,
    ensures
        index_of(a, id) == index_of(b, id),
    decreases a.len(),
{
    if a.len() > 0 {
        assert forall|i: int| 0 <= i < a.drop_last().len() implies #[trigger] a.drop_last()[i].id == b.drop_last()[i].id by {
            assert(a[i].id == b[i].id);
        }
        lemma_index_of_ids(a.drop_last(), b.drop_last(), id);
        assert(a[a.len() - 1].id == b[b.len() - 1].id);
    }
}

/// A found index is inside the sequence and holds the id.
pub proof fn lemma_index_of_found(ns: Seq<NoteView>, id: i64)
    ensures
        -1 <= index_of(ns, id) < ns.len(),
        index_of(ns, id) >= 0 ==> ns[index_of(ns, id)].id == id,
        index_of(ns, id) >= 0 ==> forall|j: int| 0 <= j < index_of(ns, id) ==> (#[trigger] ns[j]).id != id,
        index_of(ns, id) < 0 ==> forall|j: int| 0 <= j < ns.len() ==> (#[trigger] ns[j]).id != id,
    decreases ns.len(),
{
    if ns.len() > 0 {
        let p = ns.drop_last();
        lemma_index_of_found(p, id);
        let i = index_of(ns, id);
        if i >= 0 {
            assert forall|j: int| 0 <= j < i implies (#[trigger] ns[j]).id != id by {
                assert(ns[j] == p[j]);
            }
        } else {
            assert forall|j: int| 0 <= j < ns.len() implies (#[trigger] ns[j]).id != id by {
                if j < p.len() {
                    assert(ns[j] == p[j]);
                }
            }
        }
    }
}

/// A commit keeps the notes' number, ids and colours.
pub proof fn lemma_commit_keeps_notes(v: EditorView)
    ensures
        commit_state(v).notes.len() == v.notes.len(),
        forall|i: int| 0 <= i < v.notes.len() ==> {
            &&& (#[trigger] commit_state(v).notes[i]).id == v.notes[i].id
            &&& commit_state(v).notes[i].color == v.notes[i].color
        },
{
    lemma_index_of_found(v.notes, v.editing->0);
}

/// Every action keeps every palette index inside the palette.
pub proof fn lemma_actions_keep_palette(v: EditorView, id: i64, save: bool, escape: bool, n: NoteView)
    requires
        colors_in_palette(v),
        n.color < PALETTE_LEN,
    ensures
        colors_in_palette(request_new_spec(v)),
        colors_in_palette(open_edit_spec(v, id)),
        colors_in_palette(commit_state(v)),
        colors_in_palette(finish_state(v, save, escape)),
        colors_in_palette(click_spec(v, id)),
        colors_in_palette(add_note_state(v, n)),
{
    lemma_commit_keeps_notes(v);
    assert forall|i: int| 0 <= i < commit_state(v).notes.len() implies #[trigger] commit_state(v).notes[i].color
        < PALETTE_LEN by {
        assert(commit_state(v).notes[i].color == v.notes[i].color);
    }
    let a = add_note_state(v, n);
    assert forall|i: int| 0 <= i < a.notes.len() implies #[trigger] a.notes[i].color < PALETTE_LEN by {
        if i < v.notes.len() {
            assert(a.notes[i] == v.notes[i]);
        }
    }
}

/// Editing a note saves what was written: after opening note `id`, writing
/// `t` and `b` and committing, storage is asked to write the trimmed `t` and
/// `b` to it, the note holds them, the other notes are unchanged, and
/// opening the note again shows them.
pub proof fn lemma_edit_round_trip(v: EditorView, id: i64, t: Seq<char>, b: Seq<char>)
    requires
        index_of(v.notes, id) >= 0,
    ensures
        ({
            let i = index_of(v.notes, id);
            let w = EditorView { draft_title: t, draft_body: b, ..open_edit_spec(v, id) };
            let after = commit_state(w);
            &&& commit_action(w) == (CommitView::Update { id, title: trimmed(t), body: b })
            &&& after.notes.len() == v.notes.len()
            &&& after.notes[i] == (NoteView { title: trimmed(t), body: b, ..v.notes[i] })
            &&& forall|j: int| 0 <= j < v.notes.len() && j != i ==> #[trigger] after.notes[j] == v.notes[j]
            &&& !after.modal
            &&& open_edit_spec(after, id).draft_title == trimmed(t)
            &&& open_edit_spec(after, id).draft_body == b
            &&& open_edit_spec(after, id).editing == Some(id)
        }),
{
    let i = index_of(v.notes, id);
    let w = EditorView { draft_title: t, draft_body: b, ..open_edit_spec(v, id) };
    let after = commit_state(w);
    lemma_index_of_found(v.notes, id);
    assert(w.notes == v.notes);
    lemma_commit_keeps_notes(w);
    lemma_index_of_ids(after.notes, v.notes, id);
}

/// Writing a new note: Ctrl+N on a closed overlay, a title `t` that is not
/// blank and a body `b`, then Ctrl+Enter, asks storage to insert the trimmed
/// `t` and `b` with the current palette index; the cursor moves to the next
/// colour, and the stored note, once added, is the last on the board.
pub proof fn lemma_new_note(v: EditorView, t: Seq<char>, b: Seq<char>, id: i64)
    requires
        !v.modal,
        trimmed(t).len() > 0,
    ensures
        ({
            let w = EditorView { draft_title: t, draft_body: b, ..request_new_spec(v) };
            let after = finish_state(w, true, false);
            let note = NoteView { id, title: trimmed(t), body: b, color: v.color_idx };
            &&& finish_action(w, true, false) == Some(CommitView::Insert { title: trimmed(t), body: b, color: v.color_idx })
            &&& after.color_idx == (v.color_idx + 1) % (PALETTE_LEN as int)
            &&& !after.modal
            &&& after.notes == v.notes
            &&& add_note_state(after, note).notes == v.notes.push(note)
        }),
{
}

/// Esc saves and returns: with a title that is not blank it does what a
/// commit does and closes the overlay.
pub proof fn lemma_escape_saves(v: EditorView, save: bool)
    requires
        v.modal,
        can_save(v),
    ensures
        finish_state(v, save, true) == (EditorView { editing: None, modal: false, ..commit_state(v) }),
        finish_action(v, save, true) == Some(commit_action(v)),
        !finish_state(v, save, true).modal,
{
}

/// Esc with a blank title only closes the overlay: the notes stay as they
/// were and storage is asked nothing.
pub proof fn lemma_escape_blank_closes(v: EditorView)
    requires
        !can_save(v),
    ensures
        finish_state(v, false, true).notes == v.notes,
        finish_state(v, false, true).color_idx == v.color_idx,
        !finish_state(v, false, true).modal,
        finish_action(v, false, true) is None,
{
}

/// A first click on a note selects it and leaves the overlay closed; a
/// second click on the same note opens the overlay on it with its title and
/// body as drafts.
pub proof fn lemma_click_twice_opens(v: EditorView, id: i64)
    requires
        !v.modal,
        index_of(v.notes, id) >= 0,
        v.selected != Some(id),
    ensures
        ({
            let once = click_spec(v, id);
            let twice = click_spec(once, id);
            let i = index_of(v.notes, id);
            &&& !once.modal
            &&& once.selected == Some(id)
            &&& once.notes == v.notes
            &&& twice.modal
            &&& twice.editing == Some(id)
            &&& twice.draft_title == v.notes[i].title
            &&& twice.draft_body == v.notes[i].body
            &&& twice.notes == v.notes
        }),
{
}

/// Ctrl+Enter with a blank title changes nothing and asks nothing of storage.
pub proof fn lemma_blank_title_not_saved(v: EditorView)
    requires
        !can_save(v),
    ensures
        finish_state(v, true, false) == v,
        finish_action(v, true, false) is None,
{
}

/// Ctrl+N on a closed overlay opens it for a new note with empty drafts and
/// the title focused, leaving the notes, the palette cursor and the
/// selection as they were; on an open overlay it changes nothing.
pub proof fn lemma_request_new(v: EditorView)
    ensures
        !v.modal ==> {
            let r = request_new_spec(v);
            &&& r.modal
            &&& r.focus_title
            &&& r.editing is None
            &&& r.draft_title.len() == 0
            &&& r.draft_body.len() == 0
            &&& r.notes == v.notes
            &&& r.color_idx == v.color_idx
            &&& r.selected == v.selected
        },
        v.modal ==> request_new_spec(v) == v,
{
}

/// Opening a note for editing: when some note has the id, the drafts become
/// the title and body of the first such note, the overlay opens on it with
/// the body focused, and the notes stay as they were; when none has it,
/// nothing changes.
pub proof fn lemma_open_edit(v: EditorView, id: i64)
    ensures
        (exists|j: int| 0 <= j < v.notes.len() && (#[trigger] v.notes[j]).id == id) ==> exists|i: int|
            #![trigger v.notes[i]]
            0 <= i < v.notes.len() && v.notes[i].id == id && (forall|j: int|
                0 <= j < i ==> (#[trigger] v.notes[j]).id != id) && {
                let r = open_edit_spec(v, id);
                &&& r.modal
                &&& !r.focus_title
                &&& r.editing == Some(id)
                &&& r.draft_title == v.notes[i].title
                &&& r.draft_body == v.notes[i].body
                &&& r.notes == v.notes
                &&& r.color_idx == v.color_idx
            },
        (forall|j: int| 0 <= j < v.notes.len() ==> (#[trigger] v.notes[j]).id != id) ==> open_edit_spec(v, id) == v,
{
    lemma_index_of_found(v.notes, id);
    let i = index_of(v.notes, id);
    if exists|j: int| 0 <= j < v.notes.len() && (#[trigger] v.notes[j]).id == id {
        let j = choose|j: int| 0 <= j < v.notes.len() && (#[trigger] v.notes[j]).id == id;
        assert(i >= 0);
        assert(v.notes[i].id == id);
    } else {
        if i >= 0 {
            assert(v.notes[i].id == id);
        }
    }
}

/// A saving key press (Ctrl+Enter or Esc) with a title that is not blank
/// closes the overlay and empties the body draft. When a note was being
/// edited, storage is asked to update it with the trimmed title and the
/// body, the first note with its id takes them, the other notes and the
/// palette cursor stay as they were; for a new note, storage is asked to
/// insert it with the current palette index, the notes stay as they were
/// and the cursor moves to the next colour.
pub proof fn lemma_save_commits(v: EditorView, save: bool, escape: bool)
    requires
        v.modal,
        save || escape,
        trimmed(v.draft_title).len() > 0,
    ensures
        ({
            let w = finish_state(v, save, escape);
            let title = trimmed(v.draft_title);
            &&& !w.modal
            &&& w.editing is None
            &&& w.draft_body.len() == 0
            &&& w.notes.len() == v.notes.len()
            &&& match v.editing {
                Some(id) => {
                    &&& finish_action(v, save, escape) == Some(CommitView::Update { id, title, body: v.draft_body })
                    &&& w.color_idx == v.color_idx
                    &&& forall|j: int|
                        0 <= j < v.notes.len() ==> #[trigger] w.notes[j] == (if v.notes[j].id == id && forall|i: int|
                            0 <= i < j ==> (#[trigger] v.notes[i]).id != id {
                            NoteView { title, body: v.draft_body, ..v.notes[j] }
                        } else {
                            v.notes[j]
                        })
                },
                None => {
                    &&& finish_action(v, save, escape) == Some(
                        CommitView::Insert { title, body: v.draft_body, color: v.color_idx },
                    )
                    &&& w.notes == v.notes
                    &&& w.color_idx == (v.color_idx + 1) % (PALETTE_LEN as int)
                },
            }
        }),
{
    if let Some(id) = v.editing {
        lemma_index_of_found(v.notes, id);
        let i = index_of(v.notes, id);
        let w = finish_state(v, save, escape);
        assert forall|j: int| 0 <= j < v.notes.len() implies #[trigger] w.notes[j] == (if v.notes[j].id == id
            && forall|k: int| 0 <= k < j ==> (#[trigger] v.notes[k]).id != id {
            NoteView { title: trimmed(v.draft_title), body: v.draft_body, ..v.notes[j] }
        } else {
            v.notes[j]
        }) by {
            if i >= 0 && j > i && v.notes[j].id == id {
                assert(v.notes[i].id == id);
            }
        }
    }
}

/// A click on a note: on an unknown id nothing changes; on a closed overlay
/// and a note not yet selected, the note becomes selected and nothing else
/// changes; on the selected note, or while the overlay is open, the overlay
/// opens on the note, as `open_edit` does.
pub proof fn lemma_click(v: EditorView, id: i64)
    ensures
        (forall|j: int| 0 <= j < v.notes.len() ==> (#[trigger] v.notes[j]).id != id) ==> click_spec(v, id) == v,
        (exists|j: int| 0 <= j < v.notes.len() && (#[trigger] v.notes[j]).id == id) ==> {
            if !v.modal && v.selected != Some(id) {
                click_spec(v, id) == (EditorView { selected: Some(id), ..v })
            } else {
                click_spec(v, id) == open_edit_spec(v, id)
            }
        },
{
    lemma_index_of_found(v.notes, id);
    let i = index_of(v.notes, id);
    if exists|j: int| 0 <= j < v.notes.len() && (#[trigger] v.notes[j]).id == id {
        let j = choose|j: int| 0 <= j < v.notes.len() && (#[trigger] v.notes[j]).id == id;
        assert(i >= 0);
    } else if i >= 0 {
        assert(v.notes[i].id == id);
    }
}

/// A loaded note's colour is inside the palette and is its stored colour
/// index up to a multiple of the palette size.
pub proof fn lemma_loaded_color(r: (i64, Seq<char>, Seq<char>, i64))
    ensures
        loaded_note(r).color < PALETTE_LEN,
        ((loaded_note(r).color as int) - (r.3 as int)) % (PALETTE_LEN as int) == 0,
        loaded_note(r).id == r.0,
        loaded_note(r).title == r.1,
        loaded_note(r).body == r.2,
{
    vstd::arithmetic::div_mod::lemma_fundamental_div_mod(r.3 as int, 8);
    vstd::arithmetic::div_mod::lemma_mod_bound(r.3 as int, 8);
    vstd::arithmetic::div_mod::lemma_fundamental_div_mod_converse(
        (loaded_note(r).color as int) - (r.3 as int),
        8,
        -((r.3 as int) / 8),
        0,
    );
}

} // verus!
