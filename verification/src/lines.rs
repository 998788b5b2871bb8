//! Choosing which lines of a text to show: the first `n` or the last `n`,
//! optionally leaving out lines that hold nothing but whitespace.

use vstd::prelude::*;
use crate::ring::{CircularBuffer, window, lemma_window_push};
use crate::text::{is_blank, is_blank_str};

verus! {

/// The texts of a sequence of strings.
pub open spec fn texts(v: Seq<String>) -> Seq<Seq<char>> {
    v.map_values(|s: String| s@)
}

/// The lines that count: all of them, or, when `skip_empty` is set, those that are
/// not blank.
pub open spec fn kept_lines(lines: Seq<Seq<char>>, skip_empty: bool) -> Seq<Seq<char>>
    decreases lines.len(),
{
    if lines.len() == 0 {
        Seq::empty()
    } else {
        let rest = kept_lines(lines.drop_last(), skip_empty);
        if skip_empty && is_blank(lines.last()) {
            rest
        } else {
            rest.push(lines.last())
        }
    }
}

/// The first `n` lines that count.
pub open spec fn head_lines(lines: Seq<Seq<char>>, n: nat, skip_empty: bool) -> Seq<Seq<char>> {
    let k = kept_lines(lines, skip_empty);
    if k.len() <= n {
        k
    } else {
        k.take(n as int)
    }
}

/// The last `n` lines that count.
pub open spec fn tail_lines(lines: Seq<Seq<char>>, n: nat, skip_empty: bool) -> Seq<Seq<char>> {
    window(kept_lines(lines, skip_empty), n)
}

/// Which lines count is decided line by line: the lines that count in a text
/// made of two parts are those of the first part followed by those of the second.
pub proof fn lemma_kept_lines_append(a: Seq<Seq<char>>, b: Seq<Seq<char>>, skip_empty: bool)
    ensures
        kept_lines(a + b, skip_empty) == kept_lines(a, skip_empty) + kept_lines(b, skip_empty),
    decreases b.len(),
{
    if b.len() == 0 {
        assert(a + b =~= a);
        assert(kept_lines(a, skip_empty) + kept_lines(b, skip_empty) =~= kept_lines(a, skip_empty));
    } else {
        assert((a + b).drop_last() =~= a + b.drop_last());
        assert((a + b).last() == b.last());
        lemma_kept_lines_append(a, b.drop_last(), skip_empty);
        let ka = kept_lines(a, skip_empty);
        let kb = kept_lines(b.drop_last(), skip_empty);
        assert((ka + kb).push(b.last()) =~= ka + kb.push(b.last()));
    }
}

proof fn lemma_kept_lines_step(t: Seq<Seq<char>>, i: int, skip_empty: bool)
    requires
        0 <= i < t.len(),
    ensures
        kept_lines(t.take(i + 1), skip_empty) == if skip_empty && is_blank(t[i]) {
            kept_lines(t.take(i), skip_empty)
        } else {
            kept_lines(t.take(i), skip_empty).push(t[i])
        },
{
    assert(t.take(i + 1).drop_last() =~= t.take(i));
    assert(t.take(i + 1).last() == t[i]);
}

proof fn lemma_kept_lines_prefix(t: Seq<Seq<char>>, i: int, skip_empty: bool)
    requires
        0 <= i <= t.len(),
    ensures
        kept_lines(t, skip_empty) == kept_lines(t.take(i), skip_empty) + kept_lines(
            t.skip(i),
            skip_empty,
        ),
{
    assert(t =~= t.take(i) + t.skip(i));
    lemma_kept_lines_append(t.take(i), t.skip(i), skip_empty);
}

proof fn lemma_texts_push(v: Seq<String>, s: String)
    ensures
        texts(v.push(s)) == texts(v).push(s@),
{
    assert(texts(v.push(s)) =~= texts(v).push(s@));
}

/// Taking the first `a` and the last `b` lines that count, where `a + b` is their
/// number, gives back every line that counts, each once, in order.
pub proof fn lemma_head_tail_partition(lines: Seq<Seq<char>>, a: nat, b: nat, skip_empty: bool)
    requires
        a + b == kept_lines(lines, skip_empty).len(),
    ensures
        head_lines(lines, a, skip_empty) + tail_lines(lines, b, skip_empty) == kept_lines(
            lines,
            skip_empty,
        ),
{
    let k = kept_lines(lines, skip_empty);
    assert(k.take(a as int) + k.skip(a as int) =~= k);
    assert(head_lines(lines, a, skip_empty) + tail_lines(lines, b, skip_empty) =~= k);
}

/// When `n` covers every line that counts, the first `n` and the last `n` lines
/// are the same: all of them.
pub proof fn lemma_head_tail_agree(lines: Seq<Seq<char>>, n: nat, skip_empty: bool)
    requires
        kept_lines(lines, skip_empty).len() <= n,
    ensures
        head_lines(lines, n, skip_empty) == kept_lines(lines, skip_empty),
        tail_lines(lines, n, skip_empty) == kept_lines(lines, skip_empty),
{
}

/// Without `skip_empty` every line counts.
pub proof fn lemma_kept_lines_all(lines: Seq<Seq<char>>)
    ensures
        kept_lines(lines, false) == lines,
    decreases lines.len(),
{
    if lines.len() > 0 {
        lemma_kept_lines_all(lines.drop_last());
        assert(lines.drop_last().push(lines.last()) =~= lines);
    }
}

/// Collects the first lines of a text that count, one line at a time, and tells
/// when it has enough.
pub struct HeadLines {
    limit: usize,
    skip_empty: bool,
    kept: Vec<String>,
}

impl View for HeadLines {
    type V = Seq<Seq<char>>;

    /// The lines taken so far.
    closed spec fn view(&self) -> Seq<Seq<char>> {
        texts(self.kept@)
    }
}

impl HeadLines {
    /// The number of lines wanted.
    pub closed spec fn limit(&self) -> nat {
        self.limit as nat
    }

    /// Whether blank lines are left out.
    pub closed spec fn skips_empty(&self) -> bool {
        self.skip_empty
    }

    /// A collector that wants `n` lines, leaving out blank ones when `skip_empty`.
    pub fn new(n: usize, skip_empty: bool) -> (r: Self)
        ensures
            r@ == Seq::<Seq<char>>::empty(),
            r.limit() == n,
            r.skips_empty() == skip_empty,
    {
        let r = HeadLines { limit: n, skip_empty, kept: Vec::new() };
        assert(r@ =~= Seq::<Seq<char>>::empty());
        r
    }

    /// Whether fewer than the wanted number of lines have been taken.
    pub fn wants_more(&self) -> (r: bool)
        ensures
            r == (self@.len() < self.limit()),
    {
        self.kept.len() < self.limit
    }

    /// Offers the next line of the text. It is taken unless enough lines were
    /// already taken, or it is blank and blank lines are left out.
    pub fn offer(&mut self, line: String)
        ensures
            final(self).limit() == old(self).limit(),
            final(self).skips_empty() == old(self).skips_empty(),
            final(self)@ == if old(self)@.len() >= old(self).limit() || (old(self).skips_empty()
                && is_blank(line@)) {
                old(self)@
            } else {
                old(self)@.push(line@)
            },
    {
        if self.kept.len() >= self.limit {
            return ;
        }
        if self.skip_empty && is_blank_str(line.as_str()) {
            return ;
        }
        proof {
            lemma_texts_push(self.kept@, line);
        }
        self.kept.push(line);
    }

    /// The lines taken, in the order of the text.
    pub fn into_lines(self) -> (r: Vec<String>)
        ensures
            texts(r@) == self@,
    {
        self.kept
    }
}

/// The first `n` lines of `lines`, leaving out blank lines when `skip_empty`.
pub fn first_n_lines(lines: &Vec<String>, n: usize, skip_empty: bool) -> (r: Vec<String>)
    ensures
        texts(r@) == head_lines(texts(lines@), n as nat, skip_empty),
{
    let ghost t = texts(lines@);
    let mut c = HeadLines::new(n, skip_empty);
    let mut i: usize = 0;
    assert(t.take(0) =~= Seq::<Seq<char>>::empty());
    while i < lines.len() && c.wants_more()
        invariant
            t == texts(lines@),
            i <= lines@.len(),
            c.limit() == n,
            c.skips_empty() == skip_empty,
            c@ == kept_lines(t.take(i as int), skip_empty),
            c@.len() <= n,
        decreases lines@.len() - i,
    {
        proof {
            lemma_kept_lines_step(t, i as int, skip_empty);
        }
        c.offer(lines[i].clone());
        i = i + 1;
    }
    proof {
        lemma_kept_lines_prefix(t, i as int, skip_empty);
        if i == lines.len() {
            assert(t.take(i as int) =~= t);
            assert(t.skip(i as int) =~= Seq::<Seq<char>>::empty());
        }
        let k = kept_lines(t, skip_empty);
        assert(k.take(c@.len() as int) =~= c@);
    }
    c.into_lines()
}

/// Collects the last lines of a text that count, one line at a time, keeping no
/// more than the number wanted.
pub struct TailLines {
    ring: CircularBuffer<String>,
    skip_empty: bool,
}

impl View for TailLines {
    type V = Seq<Seq<char>>;

    /// The most recent lines taken, oldest first.
    closed spec fn view(&self) -> Seq<Seq<char>> {
        texts(self.ring@)
    }
}

impl TailLines {
    /// The consistency of the underlying ring buffer.
    pub closed spec fn wf(&self) -> bool {
        self.ring.wf()
    }

    /// The number of lines wanted.
    pub closed spec fn limit(&self) -> nat {
        self.ring.cap()
    }

    /// Whether blank lines are left out.
    pub closed spec fn skips_empty(&self) -> bool {
        self.skip_empty
    }

    /// A collector that keeps the last `n` lines, leaving out blank ones when
    /// `skip_empty`.
    pub fn new(n: usize, skip_empty: bool) -> (r: Self)
        ensures
            r.wf(),
            r@ == Seq::<Seq<char>>::empty(),
            r.limit() == n,
            r.skips_empty() == skip_empty,
    {
        let r = TailLines { ring: CircularBuffer::with_capacity(n), skip_empty };
        assert(r@ =~= Seq::<Seq<char>>::empty());
        r
    }

    /// Offers the next line of the text. Unless it is blank and blank lines are
    /// left out, it becomes the newest line kept and, once `limit` lines are kept,
    /// the oldest one is dropped; a collector that wants no line keeps none.
    pub fn offer(&mut self, line: String)
        requires
            old(self).wf(),
        ensures
            final(self).wf(),
            final(self).limit() == old(self).limit(),
            final(self).skips_empty() == old(self).skips_empty(),
            final(self)@ == if old(self).skips_empty() && is_blank(line@) {
                old(self)@
            } else {
                window(old(self)@.push(line@), old(self).limit())
            },
    {
        if self.skip_empty && is_blank_str(line.as_str()) {
            return ;
        }
        let ghost before = self.ring@;
        self.ring.push(line);
        proof {
            let cap = self.ring.cap();
            let p = before.push(line);
            assert(texts(p) =~= texts(before).push(line@));
            if p.len() > cap {
                assert(texts(p.skip(p.len() - cap)) =~= texts(p).skip(p.len() - cap));
            }
        }
    }

    /// The lines kept, in the order of the text.
    pub fn into_lines(self) -> (r: Vec<String>)
        requires
            self.wf(),
        ensures
            texts(r@) == self@,
    {
        self.ring.into_vec()
    }
}

/// The last `n` lines of `lines`, leaving out blank lines when `skip_empty`.
pub fn last_n_lines(lines: &Vec<String>, n: usize, skip_empty: bool) -> (r: Vec<String>)
    ensures
        texts(r@) == tail_lines(texts(lines@), n as nat, skip_empty),
{
    let ghost t = texts(lines@);
    let mut c = TailLines::new(n, skip_empty);
    assert(t.take(0) =~= Seq::<Seq<char>>::empty());
    let mut i: usize = 0;
    while i < lines.len()
        invariant
            t == texts(lines@),
            i <= lines@.len(),
            c.wf(),
            c.limit() == n,
            c.skips_empty() == skip_empty,
            c@ == window(kept_lines(t.take(i as int), skip_empty), n as nat),
        decreases lines@.len() - i,
    {
        let line = lines[i].clone();
        proof {
            lemma_kept_lines_step(t, i as int, skip_empty);
            assert(t[i as int] == line@);
            lemma_window_push(kept_lines(t.take(i as int), skip_empty), line@, n as nat);
        }
        c.offer(line);
        i = i + 1;
    }
    assert(t.take(i as int) =~= t);
    c.into_lines()
}

} // verus!
