//! Marked-line output for unified diffs.
//!
//! The line-diff algorithm itself is an external collaborator: it reports an
//! edit script over two line sequences, and this module renders each reported
//! section by prefixing the affected lines.

use vstd::prelude::*;

use crate::text::str_views;

verus! {

/// Each line prefixed by the marker of its section.
pub open spec fn marked(prefix: Seq<char>, ls: Seq<Seq<char>>) -> Seq<Seq<char>> {
    ls.map_values(|l: Seq<char>| prefix + l)
}

/// Renders the sections of an edit script between two line sequences: kept
/// lines get a space, removed lines a minus, added lines a plus.
pub struct UniDiff {
    pub old_lines: Vec<String>,
    pub new_lines: Vec<String>,
    pub output: Vec<String>,
}

impl UniDiff {
    /// Starts with the two sides and no output.
    pub fn new(old_lines: Vec<String>, new_lines: Vec<String>) -> (r: UniDiff)
        ensures
            r.old_lines == old_lines,
            r.new_lines == new_lines,
            r.output@.len() == 0,
    {
        UniDiff { old_lines, new_lines, output: Vec::new() }
    }

    /// Appends `len` lines of one side, each carrying `prefix`.
    #[verifier::loop_isolation(false)]
    pub fn push_output(&mut self, prefix: &str, from_new: bool, start: usize, len: usize)
        requires
            !from_new ==> start + len <= old(self).old_lines@.len(),
            from_new ==> start + len <= old(self).new_lines@.len(),
        ensures
            final(self).old_lines == old(self).old_lines,
            final(self).new_lines == old(self).new_lines,
            str_views(final(self).output@) == str_views(old(self).output@) + marked(
                prefix@,
                if from_new {
                    str_views(old(self).new_lines@).subrange(start as int, start + len)
                } else {
                    str_views(old(self).old_lines@).subrange(start as int, start + len)
                },
            ),
    {
        let ghost seg = if from_new {
            str_views(self.new_lines@).subrange(start as int, start + len)
        } else {
            str_views(self.old_lines@).subrange(start as int, start + len)
        };
        let ghost out0 = str_views(self.output@);
        let ol = self.old_lines.len();
        let nl = self.new_lines.len();
        proof {
            assert(ol == self.old_lines@.len() && nl == self.new_lines@.len());
        }
        let mut i: usize = 0;
        while i < len
            invariant
                i <= len,
                !from_new ==> start + len <= self.old_lines@.len(),
                from_new ==> start + len <= self.new_lines@.len(),
                self.old_lines == old(self).old_lines,
                self.new_lines == old(self).new_lines,
                seg == (if from_new {
                    str_views(self.new_lines@).subrange(start as int, start + len)
                } else {
                    str_views(self.old_lines@).subrange(start as int, start + len)
                }),
                out0 == str_views(old(self).output@),
                str_views(self.output@) == out0 + marked(prefix@, seg.take(i as int)),
            decreases len - i,
        {
            let mut line = prefix.to_owned();
            if from_new {
                line.append(self.new_lines[start + i].as_str());
            } else {
                line.append(self.old_lines[start + i].as_str());
            }
            let ghost before = str_views(self.output@);
            proof {
                assert(line@ == prefix@ + seg[i as int]);
            }
            self.output.push(line);
            proof {
                assert(str_views(self.output@) =~= before.push(prefix@ + seg[i as int]));
                assert(marked(prefix@, seg.take(i + 1)) =~= marked(prefix@, seg.take(i as int)).push(
                    prefix@ + seg[i as int],
                ));
                assert(str_views(self.output@) =~= out0 + marked(prefix@, seg.take(i + 1)));
            }
            i = i + 1;
        }
        proof {
            assert(seg.take(len as int) =~= seg);
        }
    }

    /// A section equal in both versions: the old lines, kept with a space.
    pub fn equal(&mut self, old_start: usize, len: usize)
        requires
            old_start + len <= old(self).old_lines@.len(),
        ensures
            final(self).old_lines == old(self).old_lines,
            final(self).new_lines == old(self).new_lines,
            str_views(final(self).output@) == str_views(old(self).output@) + marked(
                " "@,
                str_views(old(self).old_lines@).subrange(old_start as int, old_start + len),
            ),
    {
        self.push_output(" ", false, old_start, len);
    }

    /// A section deleted from the old version.
    pub fn delete(&mut self, old_start: usize, len: usize)
        requires
            old_start + len <= old(self).old_lines@.len(),
        ensures
            final(self).old_lines == old(self).old_lines,
            final(self).new_lines == old(self).new_lines,
            str_views(final(self).output@) == str_views(old(self).output@) + marked(
                "-"@,
                str_views(old(self).old_lines@).subrange(old_start as int, old_start + len),
            ),
    {
        self.push_output("-", false, old_start, len);
    }

    /// A section inserted by the new version.
    pub fn insert(&mut self, new_start: usize, new_len: usize)
        requires
            new_start + new_len <= old(self).new_lines@.len(),
        ensures
            final(self).old_lines == old(self).old_lines,
            final(self).new_lines == old(self).new_lines,
            str_views(final(self).output@) == str_views(old(self).output@) + marked(
                "+"@,
                str_views(old(self).new_lines@).subrange(new_start as int, new_start + new_len),
            ),
    {
        self.push_output("+", true, new_start, new_len);
    }

    /// A replaced section: the old lines removed, then the new ones added.
    pub fn replace(&mut self, old_start: usize, old_len: usize, new_start: usize, new_len: usize)
        requires
            old_start + old_len <= old(self).old_lines@.len(),
            new_start + new_len <= old(self).new_lines@.len(),
        ensures
            final(self).old_lines == old(self).old_lines,
            final(self).new_lines == old(self).new_lines,
            str_views(final(self).output@) == str_views(old(self).output@) + marked(
                "-"@,
                str_views(old(self).old_lines@).subrange(old_start as int, old_start + old_len),
            ) + marked(
                "+"@,
                str_views(old(self).new_lines@).subrange(new_start as int, new_start + new_len),
            ),
    {
        self.push_output("-", false, old_start, old_len);
        self.push_output("+", true, new_start, new_len);
    }

    /// Hands the accumulated output out.
    pub fn finish(self) -> (r: Vec<String>)
        ensures
            r == self.output,
    {
        self.output
    }
}

} // verus!
