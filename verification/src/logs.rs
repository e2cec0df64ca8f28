//! The runtime's captured log: formatted output split into lines, and a
//! bounded buffer that keeps the most recent ones for `GET /logs`.
use vstd::prelude::*;

use std::collections::VecDeque;

use crate::chars::{split_on, trim_end};
use crate::text::views;

verus! {

/// Lines the runtime keeps for `GET /logs`.
pub const LOG_CAPACITY: usize = 2000;

/// Lines returned when a request names no count.
pub const DEFAULT_TAIL: usize = 200;

/// The non-blank lines of captured output, each without trailing
/// whitespace.
pub open spec fn kept_lines(parts: Seq<Seq<char>>) -> Seq<Seq<char>>
    decreases parts.len(),
{
    if parts.len() == 0 {
        Seq::empty()
    } else {
        let rest = kept_lines(parts.drop_last());
        let line = trim_end(parts.last());
        if line.len() == 0 {
            rest
        } else {
            rest.push(line)
        }
    }
}

pub fn captured_lines(text: &str) -> (r: Vec<String>)
    ensures
        views(r@) == kept_lines(split_on(text@, '\n')),
{
    let parts = crate::chars::split_chars(&crate::text::chars_of(text), '\n');
    let ghost pv = parts@.map_values(|p: Vec<char>| p@);
    let mut out: Vec<String> = Vec::new();
    let mut i: usize = 0;
    assert(pv.take(0) =~= Seq::<Seq<char>>::empty());
    assert(views(out@) =~= kept_lines(pv.take(0)));
    while i < parts.len()
        invariant
            i <= parts@.len(),
            pv == parts@.map_values(|p: Vec<char>| p@),
            views(out@) == kept_lines(pv.take(i as int)),
        decreases parts@.len() - i,
    {
        assert(pv.take(i + 1).drop_last() =~= pv.take(i as int));
        assert(pv.take(i + 1).last() == parts@[i as int]@);
        let line = crate::chars::trim_end_chars(&parts[i]);
        if line.len() > 0 {
            let s = crate::text::string_of(&line);
            proof {
                crate::text::lemma_views_push(out@, s);
            }
            out.push(s);
        }
        i = i + 1;
    }
    assert(pv.take(parts@.len() as int) =~= pv);
    out
}

/// The most recent captured lines, at most `cap` of them.
pub struct LogRing {
    lines: VecDeque<String>,
    cap: usize,
}

/// The lines left after pushing `line` onto `kept` with room for `cap`:
/// the oldest go first.
pub open spec fn pushed(kept: Seq<Seq<char>>, line: Seq<char>, cap: nat) -> Seq<Seq<char>> {
    let all = kept.push(line);
    if all.len() > cap {
        all.skip(all.len() - cap)
    } else {
        all
    }
}

/// The lines kept after pushing `lines`, one by one, onto an empty ring.
pub open spec fn pushed_all(lines: Seq<Seq<char>>, cap: nat) -> Seq<Seq<char>>
    decreases lines.len(),
{
    if lines.len() == 0 {
        Seq::empty()
    } else {
        pushed(pushed_all(lines.drop_last(), cap), lines.last(), cap)
    }
}

/// The last `n` of `s` (all of `s` when it is shorter), oldest first.
pub open spec fn last_n(s: Seq<Seq<char>>, n: nat) -> Seq<Seq<char>> {
    if s.len() > n {
        s.skip(s.len() - n)
    } else {
        s
    }
}

/// A ring of capacity `cap` keeps exactly the last `cap` lines pushed
/// onto it, oldest first.
pub proof fn ring_keeps_latest(lines: Seq<Seq<char>>, cap: nat)
    requires
        cap > 0,
    ensures
        pushed_all(lines, cap) == last_n(lines, cap),
    decreases lines.len(),
{
    if lines.len() > 0 {
        ring_keeps_latest(lines.drop_last(), cap);
        let before = lines.drop_last();
        if before.len() > cap {
            assert(before.skip(before.len() - cap).push(lines.last()).skip(1) =~= lines.skip(
                lines.len() - cap,
            ));
        } else if lines.len() > cap {
            assert(before.push(lines.last()).skip(1) =~= lines.skip(lines.len() - cap));
        } else {
            assert(before.push(lines.last()) =~= lines);
        }
    }
}

impl LogRing {
    pub closed spec fn view(&self) -> Seq<Seq<char>> {
        self.lines@.map_values(|s: String| s@)
    }

    pub closed spec fn capacity(&self) -> nat {
        self.cap as nat
    }

    /// At most `capacity` lines, and room for at least one.
    pub closed spec fn wf(&self) -> bool {
        &&& self.cap > 0
        &&& self.lines@.len() <= self.cap
    }

    pub fn new(cap: usize) -> (r: LogRing)
        requires
            cap > 0,
        ensures
            r.wf(),
            r.view() == Seq::<Seq<char>>::empty(),
            r.capacity() == cap,
    {
        let r = LogRing { lines: VecDeque::new(), cap };
        assert(r.view() =~= Seq::<Seq<char>>::empty());
        r
    }

    /// Appends a line, dropping the oldest while the ring is full.
    pub fn push_line(&mut self, line: String)
        requires
            old(self).wf(),
        ensures
            final(self).wf(),
            final(self).capacity() == old(self).capacity(),
            final(self).view() == pushed(old(self).view(), line@, old(self).capacity()),
    {
        let ghost before = self.view();
        let ghost dropped: int = 0;
        while self.lines.len() >= self.cap
            invariant
                self.cap > 0,
                self.cap == old(self).cap,
                0 <= dropped <= 1,
                dropped <= before.len(),
                before.len() <= self.cap,
                dropped == 1 ==> before.len() == self.cap,
                self.lines@.len() == before.len() - dropped,
                self.view() == before.skip(dropped),
            decreases self.lines@.len(),
        {
            let ghost v = self.view();
            let _old_line = self.lines.pop_front();
            proof {
                assert(self.view() =~= v.drop_first());
                dropped = dropped + 1;
                assert(before.skip(dropped) =~= before.skip(dropped - 1).drop_first());
            }
        }
        let ghost kept = self.view();
        self.lines.push_back(line);
        proof {
            assert(self.view() =~= kept.push(line@));
            let all = before.push(line@);
            if all.len() > self.cap {
                assert(all.skip(all.len() - self.cap) =~= before.skip(dropped).push(line@));
            } else {
                assert(dropped == 0);
                assert(before.skip(0) =~= before);
            }
        }
    }

    /// The most recent `n` lines, oldest first.
    pub fn tail(&self, n: usize) -> (r: Vec<String>)
        ensures
            views(r@) == last_n(self.view(), n as nat),
    {
        let len = self.lines.len();
        let start = if len > n {
            len - n
        } else {
            0
        };
        let mut out: Vec<String> = Vec::new();
        let mut i: usize = start;
        while i < len
            invariant
                start <= i <= len,
                len == self.lines@.len(),
                views(out@) == self.view().subrange(start as int, i as int),
            decreases len - i,
        {
            let s = self.lines[i].clone();
            proof {
                crate::text::lemma_views_push(out@, s);
            }
            out.push(s);
            assert(views(out@) =~= self.view().subrange(start as int, i + 1));
            i = i + 1;
        }
        assert(self.view().subrange(start as int, len as int) =~= last_n(self.view(), n as nat));
        out
    }
}

} // verus!
