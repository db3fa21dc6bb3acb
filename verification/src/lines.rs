//! The logical line source. A logical line is a physical line (up to a
//! newline) with backslash continuations joined: a physical line whose
//! last byte before the newline is a backslash (and that was not the sole
//! byte read) is glued to the following physical line, recursively.
//!
//! The source is a pull-style reader with one line of lookahead: `peek_line`
//! reads and caches, `next_line` consumes. Once the input is exhausted both
//! return an empty line forever and the end flag stays set; callers rely on
//! this to terminate their loops.
//!
//! The whole reader is modelled by the ghost state `SrcState` (position,
//! cached line, end flag) and the spec functions `st_peek` and `st_next`;
//! every method is proved to step the model exactly.

use vstd::prelude::*;

verus! {

/// The ghost state of a line source over an input `s`: the read position,
/// the cached lookahead line, and whether a read has hit the end of input.
pub struct SrcState {
    pub pos: int,
    pub cache: Option<Seq<u8>>,
    pub eof: bool,
}

/// The result of reading one logical line: the line, the new position, and
/// whether this read hit the end of input.
pub struct LineRead {
    pub line: Seq<u8>,
    pub pos: int,
    pub hit_end: bool,
}

/// The index of the first newline at or after `pos`, or `s.len()` if there
/// is none.
pub open spec fn line_end(s: Seq<u8>, pos: int) -> int
    decreases s.len() - pos,
{
    if pos < 0 || pos >= s.len() {
        s.len() as int
    } else if s[pos] == 10 {
        pos
    } else {
        line_end(s, pos + 1)
    }
}

/// Reads one logical line starting at `pos`, with `acc` the bytes joined
/// so far by continuations. A read at or past the end of input returns
/// `acc` and reports the end. (The guard on the recursive call only keeps
/// the recursion well founded; reading always advances the position.)
pub open spec fn read_logical(s: Seq<u8>, pos: int, acc: Seq<u8>) -> LineRead
    decreases s.len() - pos,
{
    if pos < 0 || pos >= s.len() {
        LineRead { line: acc, pos: pos, hit_end: true }
    } else {
        let end = line_end(s, pos);
        let has_nl = end < s.len();
        let n = end - pos + (if has_nl {
            1int
        } else {
            0
        });
        let buf = acc + s.subrange(pos, end);
        let pos2 = if has_nl {
            end + 1
        } else {
            end
        };
        if n > 1 && buf.len() > 0 && buf.last() == 92 {
            if pos < pos2 <= s.len() {
                read_logical(s, pos2, buf.drop_last())
            } else {
                LineRead { line: buf, pos: pos2, hit_end: false }
            }
        } else {
            LineRead { line: buf, pos: pos2, hit_end: false }
        }
    }
}

/// Reading one fresh logical line from state position `pos`.
pub open spec fn read_from(s: Seq<u8>, pos: int) -> LineRead {
    read_logical(s, pos, Seq::empty())
}

/// What `next_line` returns and how it steps the state.
pub open spec fn st_next(s: Seq<u8>, st: SrcState) -> (Seq<u8>, SrcState) {
    match st.cache {
        Some(l) => (l, SrcState { cache: None, ..st }),
        None => {
            let r = read_from(s, st.pos);
            (r.line, SrcState { pos: r.pos, cache: None, eof: st.eof || r.hit_end })
        },
    }
}

/// What `peek_line` returns and how it steps the state.
pub open spec fn st_peek(s: Seq<u8>, st: SrcState) -> (Seq<u8>, SrcState) {
    match st.cache {
        Some(l) => (l, st),
        None => {
            let r = read_from(s, st.pos);
            (r.line, SrcState { pos: r.pos, cache: Some(r.line), eof: st.eof || r.hit_end })
        },
    }
}

/// Well-formedness of a state for input `s`.
pub open spec fn st_wf(s: Seq<u8>, st: SrcState) -> bool {
    &&& 0 <= st.pos <= s.len()
    &&& (st.eof ==> st.pos == s.len())
}

/// The termination measure of a state: twice the bytes left to read,
/// plus one for a cached non-empty line, plus two while the end flag is
/// not yet set. No read operation ever grows it: in particular, caching
/// the empty line that an exhausted source yields does not count, so
/// peeking past the end of input is free. It shrinks strictly when a
/// non-empty cached line is consumed and when a fresh read happens
/// before the end flag is set.
pub open spec fn st_m(s: Seq<u8>, st: SrcState) -> int {
    2 * (if st.pos <= s.len() {
        s.len() - st.pos
    } else {
        0
    }) + (if (st.cache matches Some(l) && l.len() > 0) {
        1int
    } else {
        0
    }) + (if st.eof {
        0int
    } else {
        2
    })
}

/// Whether a line (empty or not) is cached: the tie-breaker for loops
/// that consume a cached empty line without changing the measure.
pub open spec fn st_cp(st: SrcState) -> int {
    if st.cache is Some {
        1int
    } else {
        0
    }
}

/// A state from which `next_line` makes no progress: the input is
/// exhausted, nothing is cached, and the end flag is already set.
pub open spec fn st_stuck(s: Seq<u8>, st: SrcState) -> bool {
    st.eof && st.cache is None
}

pub proof fn lemma_line_end_bounds(s: Seq<u8>, pos: int)
    requires
        0 <= pos <= s.len(),
    ensures
        pos <= line_end(s, pos) <= s.len(),
    decreases s.len() - pos,
{
    if pos < s.len() && s[pos] != 10 {
        lemma_line_end_bounds(s, pos + 1);
    }
}

pub proof fn lemma_read_bounds(s: Seq<u8>, pos: int, acc: Seq<u8>)
    requires
        0 <= pos <= s.len(),
    ensures
        pos <= read_logical(s, pos, acc).pos <= s.len(),
        pos < s.len() ==> pos < read_logical(s, pos, acc).pos,
        read_logical(s, pos, acc).hit_end ==> read_logical(s, pos, acc).pos == s.len(),
    decreases s.len() - pos,
{
    if pos < s.len() {
        lemma_line_end_bounds(s, pos);
        let end = line_end(s, pos);
        let has_nl = end < s.len();
        let pos2 = if has_nl {
            end + 1
        } else {
            end
        };
        if pos < pos2 <= s.len() {
            let n = end - pos + (if has_nl {
                1int
            } else {
                0
            });
            let buf = acc + s.subrange(pos, end);
            if n > 1 && buf.len() > 0 && buf.last() == 92 {
                lemma_read_bounds(s, pos2, buf.drop_last());
            }
        }
    }
}

/// How one read step moves the state: both operations keep the state
/// well formed and never grow the measure; consuming a non-empty cached
/// line, or reading fresh before the end flag is set, strictly shrinks
/// it.
pub proof fn lemma_step_m(s: Seq<u8>, st: SrcState)
    requires
        st_wf(s, st),
    ensures
        st_wf(s, st_peek(s, st).1),
        st_wf(s, st_next(s, st).1),
        st_m(s, st_peek(s, st).1) <= st_m(s, st),
        st_m(s, st_next(s, st).1) <= st_m(s, st),
        st_peek(s, st).1.cache is Some,
        (st.cache matches Some(l) && l.len() > 0) ==> st_m(s, st_next(s, st).1) < st_m(s, st),
        st.cache is None && !st.eof ==> st_m(s, st_next(s, st).1) < st_m(s, st),
        st.cache is None && !st.eof ==> st_m(s, st_peek(s, st).1) < st_m(s, st),
        st.eof ==> st_peek(s, st).1.eof && st_next(s, st).1.eof,
        st_stuck(s, st) ==> st_peek(s, st).0 == Seq::<u8>::empty() && st_peek(s, st).1.eof
            && st_next(s, st).0 == Seq::<u8>::empty() && st_next(s, st).1 == st && st_m(
            s,
            st_peek(s, st).1,
        ) == st_m(s, st),
        st_peek(s, st).0.len() > 0 ==> (st_peek(s, st).1.cache matches Some(l) && l.len() > 0),
        st_next(s, st).1.cache is None,
        st_next(s, st_peek(s, st).1).0 == st_peek(s, st).0,
        st_next(s, st_peek(s, st).1).1.cache is None,
        st_m(s, st_next(s, st_peek(s, st).1).1) <= st_m(s, st),
        st_peek(s, st).0.len() > 0 ==> st_m(s, st_next(s, st_peek(s, st).1).1) < st_m(s, st),
        st.cache matches Some(l) ==> st_peek(s, st) == (l, st),
{
    if st.cache is None {
        lemma_read_bounds(s, st.pos, Seq::empty());
    }
}

/// The pull-style reader. `src` is the input; `pos`, `cache` and `eof`
/// mirror the ghost state exactly.
pub struct LineSource<'a> {
    pub src: &'a [u8],
    pub pos: usize,
    pub cache: Option<Vec<u8>>,
    pub eof: bool,
}

impl<'a> LineSource<'a> {
    /// The input bytes being read.
    pub open spec fn input(&self) -> Seq<u8> {
        self.src@
    }

    /// The ghost state of the reader.
    pub open spec fn st(&self) -> SrcState {
        SrcState {
            pos: self.pos as int,
            cache: match self.cache {
                Some(v) => Some(v@),
                None => None,
            },
            eof: self.eof,
        }
    }

    pub open spec fn wf(&self) -> bool {
        st_wf(self.input(), self.st())
    }

    pub fn new(src: &'a [u8]) -> (r: LineSource<'a>)
        ensures
            r.input() == src@,
            r.st() == (SrcState { pos: 0, cache: None::<Seq<u8>>, eof: false }),
            r.wf(),
    {
        LineSource { src, pos: 0, cache: None, eof: false }
    }

    /// Consumes and returns the next logical line.
    pub fn next_line(&mut self) -> (line: Vec<u8>)
        requires
            old(self).wf(),
        ensures
            final(self).wf(),
            final(self).input() == old(self).input(),
            line@ == st_next(old(self).input(), old(self).st()).0,
            final(self).st() == st_next(old(self).input(), old(self).st()).1,
    {
        proof {
            lemma_step_m(self.input(), self.st());
        }
        let cached = self.cache.take();
        match cached {
            Some(l) => l,
            None => self.read_fresh(),
        }
    }

    /// Reads and caches the next logical line, returning a copy of it.
    pub fn peek_line(&mut self) -> (line: Vec<u8>)
        requires
            old(self).wf(),
        ensures
            final(self).wf(),
            final(self).input() == old(self).input(),
            line@ == st_peek(old(self).input(), old(self).st()).0,
            final(self).st() == st_peek(old(self).input(), old(self).st()).1,
    {
        proof {
            lemma_step_m(self.input(), self.st());
        }
        match &self.cache {
            Some(l) => crate::bytes::to_vec(l.as_slice()),
            None => {
                let l = self.read_fresh();
                let copy = crate::bytes::to_vec(l.as_slice());
                self.cache = Some(l);
                copy
            },
        }
    }

    /// Whether a read has hit the end of the input.
    pub fn at_end(&self) -> (b: bool)
        ensures
            b == self.st().eof,
    {
        self.eof
    }

    /// Reads one fresh logical line from the input; the cache must be empty.
    fn read_fresh(&mut self) -> (line: Vec<u8>)
        requires
            old(self).wf(),
            old(self).st().cache is None,
        ensures
            final(self).wf(),
            final(self).input() == old(self).input(),
            final(self).st().cache is None,
            ({
                let r = read_from(old(self).input(), old(self).st().pos);
                &&& line@ == r.line
                &&& final(self).pos as int == r.pos
                &&& final(self).eof == (old(self).eof || r.hit_end)
            }),
    {
        let ghost s = self.src@;
        let ghost target = read_logical(s, self.pos as int, Seq::empty());
        let mut buf: Vec<u8> = Vec::new();
        loop
            invariant_except_break
                self.eof == old(self).eof,
                read_logical(s, self.pos as int, buf@) == target,
            invariant
                self.src@ == s,
                self.cache is None,
                self.pos <= s.len(),
                self.eof ==> self.pos == s.len(),
            ensures
                self.src@ == s,
                self.cache is None,
                self.pos <= s.len(),
                buf@ == target.line,
                self.pos as int == target.pos,
                self.eof == (old(self).eof || target.hit_end),
                self.eof ==> self.pos == s.len(),
            decreases s.len() - self.pos,
        {
            if self.pos >= self.src.len() {
                self.eof = true;
                break ;
            }
            // find the end of the physical line
            let mut j = self.pos;
            while j < self.src.len() && self.src[j] != 10
                invariant
                    self.pos <= j <= s.len(),
                    self.src@ == s,
                    line_end(s, j as int) == line_end(s, self.pos as int),
                decreases s.len() - j,
            {
                j = j + 1;
            }
            assert(line_end(s, j as int) == j);
            let ghost buf0 = buf@;
            crate::bytes::push_range(&mut buf, self.src, self.pos, j);
            let has_nl = j < self.src.len();
            let n_more_than_one = if has_nl {
                j > self.pos
            } else {
                j > self.pos + 1
            };
            let ghost old_pos = self.pos as int;
            self.pos = if has_nl {
                j + 1
            } else {
                j
            };
            let is_cont = n_more_than_one && buf.len() > 0 && buf[buf.len() - 1] == 92;
            if is_cont {
                buf.pop();
                assert(read_logical(s, self.pos as int, buf@) == target);
            } else {
                assert(read_logical(s, old_pos, buf0) == (LineRead {
                    line: buf@,
                    pos: self.pos as int,
                    hit_end: false,
                }));
                break ;
            }
        }
        buf
    }
}

} // verus!
