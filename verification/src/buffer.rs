//! A cursor-addressed editing buffer over a flat character sequence with
//! embedded newlines: character insertion and deletion at the cursor, and
//! one-dimensional and line-aware cursor motion.

use vstd::prelude::*;

use crate::text::find_from;

verus! {

/// The mathematical state of an editing buffer: its text and the cursor
/// offset into it.
#[verifier::ext_equal]
pub ghost struct BufModel {
    pub text: Seq<char>,
    pub cursor: int,
}

/// A buffer state is well formed when the cursor lies inside the text,
/// the position one past the end included.
pub open spec fn buf_wf(m: BufModel) -> bool {
    0 <= m.cursor <= m.text.len()
}

/// Start of the line holding offset `i`: one past the nearest newline
/// strictly before `i`, or `0` if there is none.
pub open spec fn line_start(t: Seq<char>, i: int) -> int
    recommends
        0 <= i <= t.len(),
    decreases i,
{
    if i <= 0 {
        0
    } else if t[i - 1] == '\n' {
        i
    } else {
        line_start(t, i - 1)
    }
}

/// `line_start` stays between `0` and `i`, points one past a newline when it
/// is positive, and no newline lies between it and `i`.
pub proof fn lemma_line_start_range(t: Seq<char>, i: int)
    requires
        0 <= i <= t.len(),
    ensures
        0 <= line_start(t, i) <= i,
        line_start(t, i) > 0 ==> t[line_start(t, i) - 1] == '\n',
        forall|k: int| line_start(t, i) <= k < i ==> t[k] != '\n',
    decreases i,
{
    if i > 0 && t[i - 1] != '\n' {
        lemma_line_start_range(t, i - 1);
    }
}

/// Cursor offset after a `move_up` on text `t` from offset `c`: the same
/// column within the previous line, clamped to that line's end; unchanged
/// when `c` is on the first line.
pub open spec fn up_target(t: Seq<char>, c: int) -> int
    recommends
        0 <= c <= t.len(),
{
    let cls = line_start(t, c);
    if cls == 0 {
        c
    } else {
        let pls = line_start(t, cls - 1);
        let col = c - cls;
        let plen = cls - 1 - pls;
        pls + if col <= plen {
            col
        } else {
            plen
        }
    }
}

/// Cursor offset after a `move_down` on text `t` from offset `c`: the same
/// column within the next line, clamped to that line's end; unchanged when
/// `c` is on the last line.
pub open spec fn down_target(t: Seq<char>, c: int) -> int
    recommends
        0 <= c <= t.len(),
{
    let ne = find_from(t, c, '\n');
    if ne >= t.len() {
        c
    } else {
        let cls = line_start(t, c);
        let col = c - cls;
        let nstart = ne + 1;
        let nend = find_from(t, nstart, '\n');
        nstart + if col <= nend - nstart {
            col
        } else {
            nend - nstart
        }
    }
}

/// Inserting a character at the cursor advances the cursor past it.
pub open spec fn buf_insert(m: BufModel, c: char) -> BufModel {
    BufModel { text: m.text.insert(m.cursor, c), cursor: m.cursor + 1 }
}

/// Backspace: removes the character before the cursor, a no-op at offset 0.
pub open spec fn buf_delete_before(m: BufModel) -> BufModel {
    if m.cursor <= 0 {
        m
    } else {
        BufModel { text: m.text.remove(m.cursor - 1), cursor: m.cursor - 1 }
    }
}

/// Forward delete: removes the character at the cursor, a no-op at the end.
pub open spec fn buf_delete_at(m: BufModel) -> BufModel {
    if m.cursor >= m.text.len() {
        m
    } else {
        BufModel { text: m.text.remove(m.cursor), cursor: m.cursor }
    }
}

/// One step left, clamped to the start of the text.
pub open spec fn buf_left(m: BufModel) -> BufModel {
    BufModel {
        text: m.text,
        cursor: if m.cursor > 0 {
            m.cursor - 1
        } else {
            0
        },
    }
}

/// One step right, clamped to the end of the text.
pub open spec fn buf_right(m: BufModel) -> BufModel {
    BufModel {
        text: m.text,
        cursor: if m.cursor < m.text.len() {
            m.cursor + 1
        } else {
            m.text.len() as int
        },
    }
}

/// Line-aware upward motion; the text is unchanged.
pub open spec fn buf_up(m: BufModel) -> BufModel {
    BufModel { text: m.text, cursor: up_target(m.text, m.cursor) }
}

/// Line-aware downward motion; the text is unchanged.
pub open spec fn buf_down(m: BufModel) -> BufModel {
    BufModel { text: m.text, cursor: down_target(m.text, m.cursor) }
}

/// An in-memory, cursor-addressed mutable text buffer. The cursor always
/// lies between `0` and the text length.
pub struct LineBuffer {
    text: Vec<char>,
    cursor: usize,
}

impl View for LineBuffer {
    type V = BufModel;

    closed spec fn view(&self) -> BufModel {
        BufModel { text: self.text@, cursor: self.cursor as int }
    }
}

impl LineBuffer {
    #[verifier::type_invariant]
    spec fn inv(self) -> bool {
        buf_wf(self@)
    }

    /// An empty buffer with the cursor at the start.
    pub fn new() -> (r: Self)
        ensures
            r@.text == Seq::<char>::empty(),
            r@.cursor == 0,
    {
        LineBuffer { text: Vec::new(), cursor: 0 }
    }

    /// A buffer seeded with existing content, the cursor at the content end.
    pub fn from_text(text: Vec<char>) -> (r: Self)
        ensures
            r@.text == text@,
            r@.cursor == text@.len(),
    {
        let cursor = text.len();
        LineBuffer { text, cursor }
    }

    /// The current cursor offset.
    pub fn cursor(&self) -> (r: usize)
        ensures
            r as int == self@.cursor,
    {
        self.cursor
    }

    /// A read-only view of the current text.
    pub fn text(&self) -> (r: &Vec<char>)
        ensures
            r@ == self@.text,
    {
        &self.text
    }

    /// Hands the edited text out and resets the buffer to empty.
    pub fn take(&mut self) -> (r: Vec<char>)
        ensures
            r@ == old(self)@.text,
            final(self)@.text == Seq::<char>::empty(),
            final(self)@.cursor == 0,
    {
        let mut t: Vec<char> = Vec::new();
        self.cursor = 0;
        core::mem::swap(&mut t, &mut self.text);
        t
    }

    /// Inserts `c` at the cursor and advances the cursor past it.
    pub fn insert_char(&mut self, c: char)
        ensures
            final(self)@ == buf_insert(old(self)@, c),
    {
        proof {
            use_type_invariant(&*self);
        }
        let cur = self.cursor;
        let mut t: Vec<char> = Vec::new();
        self.cursor = 0;
        core::mem::swap(&mut t, &mut self.text);
        t.insert(cur, c);
        let n = t.len();
        assert(cur < n);
        self.text = t;
        self.cursor = cur + 1;
    }

    /// Inserts a whole text at the cursor, as if its characters were typed
    /// one by one; the cursor ends past the inserted text.
    pub fn insert_text(&mut self, t: &Vec<char>)
        ensures
            final(self)@ == apply_inserts(old(self)@, t@),
    {
        proof {
            assert(t@.subrange(0, t@.len() as int) =~= t@);
        }
        let n = t.len();
        let mut k: usize = 0;
        while k < n
            invariant
                n == t@.len(),
                k <= n,
                apply_inserts(old(self)@, t@) == apply_inserts(
                    self@,
                    t@.subrange(k as int, n as int),
                ),
            decreases n - k,
        {
            let ghost pre = self@;
            self.insert_char(t[k]);
            proof {
                assert(t@.subrange(k as int, n as int)[0] == t@[k as int]);
                assert(t@.subrange(k as int, n as int).drop_first() =~= t@.subrange(
                    k + 1,
                    n as int,
                ));
                assert(apply_inserts(pre, t@.subrange(k as int, n as int)) == apply_inserts(
                    self@,
                    t@.subrange(k + 1, n as int),
                ));
            }
            k += 1;
        }
        proof {
            assert(apply_inserts(self@, t@.subrange(n as int, n as int)) == self@);
        }
    }

    /// Inserts a newline at the cursor and advances the cursor past it.
    pub fn insert_newline(&mut self)
        ensures
            final(self)@ == buf_insert(old(self)@, '\n'),
    {
        self.insert_char('\n');
    }

    /// Backspace: removes the character before the cursor and moves the
    /// cursor back; a no-op at the start of the buffer.
    pub fn delete_before(&mut self)
        ensures
            final(self)@ == buf_delete_before(old(self)@),
    {
        proof {
            use_type_invariant(&*self);
        }
        if self.cursor == 0 {
            return ;
        }
        let cur = self.cursor;
        let mut t: Vec<char> = Vec::new();
        self.cursor = 0;
        core::mem::swap(&mut t, &mut self.text);
        t.remove(cur - 1);
        self.text = t;
        self.cursor = cur - 1;
    }

    /// Forward delete: removes the character at the cursor, leaving the
    /// cursor where it is; a no-op at the end of the buffer.
    pub fn delete_at(&mut self)
        ensures
            final(self)@ == buf_delete_at(old(self)@),
    {
        proof {
            use_type_invariant(&*self);
        }
        if self.cursor >= self.text.len() {
            return ;
        }
        let cur = self.cursor;
        let mut t: Vec<char> = Vec::new();
        self.cursor = 0;
        core::mem::swap(&mut t, &mut self.text);
        t.remove(cur);
        self.text = t;
        self.cursor = cur;
    }

    /// Moves the cursor one position left, clamped to the start.
    pub fn move_left(&mut self)
        ensures
            final(self)@ == buf_left(old(self)@),
    {
        proof {
            use_type_invariant(&*self);
        }
        if self.cursor > 0 {
            self.cursor = self.cursor - 1;
        }
    }

    /// Moves the cursor one position right, clamped to the end.
    pub fn move_right(&mut self)
        ensures
            final(self)@ == buf_right(old(self)@),
    {
        proof {
            use_type_invariant(&*self);
        }
        if self.cursor < self.text.len() {
            self.cursor = self.cursor + 1;
        }
    }

    /// Moves the cursor to the same column within the previous line, clamped
    /// to that line's end; a no-op on the first line.
    pub fn move_up(&mut self)
        ensures
            final(self)@ == buf_up(old(self)@),
    {
        proof {
            use_type_invariant(&*self);
        }
        let cls = find_line_start(&self.text, self.cursor);
        if cls == 0 {
            return ;
        }
        proof {
            lemma_line_start_range(self.text@, self.cursor as int);
            lemma_line_start_range(self.text@, cls - 1);
        }
        let pls = find_line_start(&self.text, cls - 1);
        let col = self.cursor - cls;
        let plen = cls - 1 - pls;
        self.cursor = pls + if col <= plen {
            col
        } else {
            plen
        };
    }

    /// Moves the cursor to the same column within the next line, clamped to
    /// that line's end; a no-op on the last line.
    pub fn move_down(&mut self)
        ensures
            final(self)@ == buf_down(old(self)@),
    {
        proof {
            use_type_invariant(&*self);
        }
        let ne = crate::text::find_char_from(&self.text, self.cursor, '\n');
        proof {
            crate::text::lemma_find_from_range(self.text@, self.cursor as int, '\n');
        }
        if ne == self.text.len() {
            return ;
        }
        let cls = find_line_start(&self.text, self.cursor);
        proof {
            lemma_line_start_range(self.text@, self.cursor as int);
        }
        let col = self.cursor - cls;
        let nstart = ne + 1;
        let nend = crate::text::find_char_from(&self.text, nstart, '\n');
        proof {
            crate::text::lemma_find_from_range(self.text@, nstart as int, '\n');
        }
        let nlen = nend - nstart;
        self.cursor = nstart + if col <= nlen {
            col
        } else {
            nlen
        };
    }
}

/// Index of the start of the line holding offset `pos`.
fn find_line_start(v: &Vec<char>, pos: usize) -> (r: usize)
    requires
        pos <= v@.len(),
    ensures
        r as int == line_start(v@, pos as int),
{
    let mut i: usize = pos;
    while i > 0 && v[i - 1] != '\n'
        invariant
            i <= pos <= v@.len(),
            line_start(v@, pos as int) == line_start(v@, i as int),
        decreases i,
    {
        i -= 1;
    }
    i
}

/// Moving up from the first line leaves the buffer unchanged.
pub proof fn lemma_move_up_first_line(m: BufModel)
    requires
        buf_wf(m),
        line_start(m.text, m.cursor) == 0,
    ensures
        buf_up(m) == m,
{
}

/// Moving down from the last line leaves the buffer unchanged.
pub proof fn lemma_move_down_last_line(m: BufModel)
    requires
        buf_wf(m),
        find_from(m.text, m.cursor, '\n') == m.text.len(),
    ensures
        buf_down(m) == m,
{
}

/// A backspace exactly undoes an insertion at the same cursor.
pub proof fn lemma_delete_undoes_insert(m: BufModel, c: char)
    requires
        buf_wf(m),
    ensures
        buf_delete_before(buf_insert(m, c)) == m,
{
    let inserted = buf_insert(m, c);
    assert(inserted.text.remove(m.cursor) =~= m.text);
    assert(buf_delete_before(inserted) =~= m);
}

/// The buffer after inserting the characters of `cs` in order, each at the
/// cursor.
pub open spec fn apply_inserts(m: BufModel, cs: Seq<char>) -> BufModel
    decreases cs.len(),
{
    if cs.len() == 0 {
        m
    } else {
        apply_inserts(buf_insert(m, cs[0]), cs.drop_first())
    }
}

/// The buffer after `n` backspaces.
pub open spec fn apply_deletes(m: BufModel, n: nat) -> BufModel
    decreases n,
{
    if n == 0 {
        m
    } else {
        apply_deletes(buf_delete_before(m), (n - 1) as nat)
    }
}

proof fn lemma_insert_preserves_wf(m: BufModel, c: char)
    requires
        buf_wf(m),
    ensures
        buf_wf(buf_insert(m, c)),
{
}

/// Iterating a backspace is the same whether the extra step is taken first
/// or last.
proof fn lemma_deletes_unroll_last(m: BufModel, n: nat)
    ensures
        apply_deletes(m, n + 1) == buf_delete_before(apply_deletes(m, n)),
    decreases n,
{
    assert(apply_deletes(m, n + 1) == apply_deletes(buf_delete_before(m), n));
    if n == 0 {
        assert(apply_deletes(buf_delete_before(m), 0) == buf_delete_before(m));
        assert(apply_deletes(m, 0) == m);
    } else {
        lemma_deletes_unroll_last(buf_delete_before(m), (n - 1) as nat);
        assert(apply_deletes(m, n) == apply_deletes(buf_delete_before(m), (n - 1) as nat));
    }
}

/// Inserting `n` characters and then applying `n` backspaces returns the
/// buffer to its original text and cursor position.
pub proof fn lemma_inserts_then_deletes(m: BufModel, cs: Seq<char>)
    requires
        buf_wf(m),
    ensures
        apply_deletes(apply_inserts(m, cs), cs.len()) == m,
    decreases cs.len(),
{
    if cs.len() > 0 {
        let m1 = buf_insert(m, cs[0]);
        lemma_insert_preserves_wf(m, cs[0]);
        lemma_inserts_then_deletes(m1, cs.drop_first());
        lemma_deletes_unroll_last(apply_inserts(m1, cs.drop_first()), (cs.len() - 1) as nat);
        lemma_delete_undoes_insert(m, cs[0]);
    }
}

} // verus!
