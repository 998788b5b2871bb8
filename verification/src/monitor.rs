//! Following a growing file: the decisions of the watch loop, which reads what
//! was appended to the file since the last look and shows it line by line.
//! The loop itself, with its reading, waiting and keyboard, stands outside.

use vstd::prelude::*;
use crate::text::{is_blank, is_white_space, trim, trim_start, trim_str, lemma_trim_empty_iff_blank,
    chars_of};

verus! {

/// The state of a watch, as plain values.
pub struct MonitorModel {
    /// Whether blank lines are held back.
    pub compact: bool,
    /// The file position up to which the file was read (0: not known yet).
    pub pos: u64,
    /// Text read but not shown yet.
    pub pending: Seq<char>,
}

/// The state of a watch of a file.
pub struct Monitor {
    compact: bool,
    last_pos: u64,
    pending: String,
}

impl View for Monitor {
    type V = MonitorModel;

    closed spec fn view(&self) -> MonitorModel {
        MonitorModel { compact: self.compact, pos: self.last_pos, pending: self.pending@ }
    }
}

/// What reading one more piece of text `chunk` (a line, with its end of line)
/// does: it is added to the pending text; the pending text is then shown
/// trimmed and forgotten, unless it is blank and the watch is compact, in which
/// case it is held back.
pub open spec fn chunk_step(m: MonitorModel, chunk: Seq<char>) -> (MonitorModel, Option<Seq<char>>) {
    let p = m.pending + chunk;
    if m.compact && trim(p).len() == 0 {
        (MonitorModel { pending: p, ..m }, None)
    } else {
        (MonitorModel { pending: Seq::empty(), ..m }, Some(trim(p)))
    }
}

impl Monitor {
    /// A watch that starts at file position `last_pos`; 0 means that the
    /// position is not known yet and the watch should start at the end of the file.
    pub fn new(compact: bool, last_pos: u64) -> (r: Self)
        ensures
            r@ == (MonitorModel { compact, pos: last_pos, pending: Seq::empty() }),
    {
        Monitor { compact, last_pos, pending: String::new() }
    }

    /// Whether the starting position is still to be taken from the end of the file.
    pub fn position_known(&self) -> (r: bool)
        ensures
            r == (self@.pos != 0),
    {
        self.last_pos != 0
    }

    /// Records that the file was read up to `pos`.
    pub fn set_position(&mut self, pos: u64)
        ensures
            final(self)@ == (MonitorModel { pos, ..old(self)@ }),
    {
        self.last_pos = pos;
    }

    /// The position from which to read.
    pub fn position(&self) -> (r: u64)
        ensures
            r == self@.pos,
    {
        self.last_pos
    }

    /// Whether a file of length `file_len` holds text not read yet.
    pub fn has_new_data(&self, file_len: u64) -> (r: bool)
        ensures
            r == (file_len > self@.pos),
    {
        file_len > self.last_pos
    }

    /// Takes the next piece of text read, and gives the text to show, if any,
    /// as `chunk_step` describes.
    pub fn take_chunk(&mut self, chunk: &str) -> (r: Option<String>)
        ensures
            final(self)@ == chunk_step(old(self)@, chunk@).0,
            match r {
                Some(s) => chunk_step(old(self)@, chunk@).1 == Some(s@),
                None => chunk_step(old(self)@, chunk@).1 is None,
            },
    {
        self.pending.append(chunk);
        let trimmed = trim_str(self.pending.as_str());
        if self.compact && trimmed.as_str().is_empty() {
            return None;
        }
        self.pending = String::new();
        Some(trimmed)
    }
}

/// Whether a line typed on the keyboard asks to stop watching: it holds a `q`.
pub fn is_quit_key(key: &str) -> (r: bool)
    ensures
        r == key@.contains('q'),
{
    let v = chars_of(key);
    let mut i: usize = 0;
    while i < v.len()
        invariant
            v@ == key@,
            i <= v@.len(),
            forall|j: int| 0 <= j < i ==> v@[j] != 'q',
        decreases v@.len() - i,
    {
        if v[i] == 'q' {
            return true;
        }
        i = i + 1;
    }
    false
}

proof fn lemma_trim_start_blank_prefix(a: Seq<char>, b: Seq<char>)
    requires
        is_blank(a),
    ensures
        trim_start(a + b) == trim_start(b),
    decreases a.len(),
{
    if a.len() > 0 {
        assert(is_white_space(a[0]));
        assert((a + b)[0] == a[0]);
        assert((a + b).drop_first() =~= a.drop_first() + b);
        assert(is_blank(a.drop_first())) by {
            assert forall|i: int| 0 <= i < a.drop_first().len() implies crate::text::is_white_space(
                #[trigger] a.drop_first()[i],
            ) by {
                assert(a.drop_first()[i] == a[i + 1]);
            }
        }
        lemma_trim_start_blank_prefix(a.drop_first(), b);
    } else {
        assert(a + b =~= b);
    }
}

/// In a compact watch, blank text held back changes nothing of what is shown
/// next: after a blank piece `a`, the piece `b` shows as `b` alone would.
pub proof fn lemma_blank_held_back(m: MonitorModel, a: Seq<char>, b: Seq<char>)
    requires
        m.compact,
        m.pending.len() == 0,
        is_blank(a),
    ensures
        chunk_step(m, a).1 is None,
        chunk_step(chunk_step(m, a).0, b).1 == chunk_step(m, b).1,
        chunk_step(m, b).1 is Some ==> chunk_step(chunk_step(m, a).0, b).0 == chunk_step(m, b).0,
{
    assert(m.pending + a =~= a);
    assert(m.pending + b =~= b);
    lemma_trim_empty_iff_blank(a);
    assert(a + b =~= chunk_step(m, a).0.pending + b);
    lemma_trim_start_blank_prefix(a, b);
}

/// A compact watch never shows a blank line.
pub proof fn lemma_compact_shows_no_blank(m: MonitorModel, chunk: Seq<char>)
    requires
        m.compact,
    ensures
        chunk_step(m, chunk).1 matches Some(s) ==> s.len() > 0,
{
}

} // verus!
