//! Maps output offsets of preprocessed text back to source positions.

use vstd::prelude::*;

verus! {

/// One position record: output at `output_offset` came from `file`
/// at `line`:`col`.
#[derive(Debug, Clone)]
pub struct LineMapEntry {
    pub output_offset: usize,
    pub file: Vec<char>,
    pub line: u32,
    pub col: u32,
}

/// Position records in the order the output was produced.
#[derive(Debug, Clone)]
pub struct LineMap {
    pub entries: Vec<LineMapEntry>,
}

/// Index of the last entry whose offset is at most `offset`, or -1.
pub open spec fn last_at_or_before(entries: Seq<LineMapEntry>, offset: usize) -> int
    decreases entries.len(),
{
    if entries.len() == 0 {
        -1
    } else if entries.last().output_offset <= offset {
        entries.len() - 1
    } else {
        last_at_or_before(entries.drop_last(), offset)
    }
}

proof fn lemma_last_at_or_before_range(entries: Seq<LineMapEntry>, offset: usize)
    ensures
        -1 <= last_at_or_before(entries, offset) < entries.len(),
        last_at_or_before(entries, offset) >= 0 ==> entries[last_at_or_before(entries, offset)].output_offset <= offset,
        forall|k: int| last_at_or_before(entries, offset) < k < entries.len() ==> #[trigger] entries[k].output_offset > offset,
    decreases entries.len(),
{
    if entries.len() > 0 && entries.last().output_offset > offset {
        lemma_last_at_or_before_range(entries.drop_last(), offset);
        assert forall|k: int| last_at_or_before(entries, offset) < k < entries.len() implies #[trigger] entries[k].output_offset > offset by {
            if k < entries.len() - 1 {
                assert(entries[k] == entries.drop_last()[k]);
            }
        }
    }
}

impl LineMap {
    pub fn new() -> (r: LineMap)
        ensures
            r.entries@.len() == 0,
    {
        LineMap { entries: Vec::new() }
    }

    /// Records that output at `output_offset` came from `file` at `line`:`col`.
    pub fn push(&mut self, output_offset: usize, file: Vec<char>, line: u32, col: u32)
        ensures
            final(self).entries@ == old(self).entries@.push(
                LineMapEntry { output_offset, file, line, col },
            ),
    {
        self.entries.push(LineMapEntry { output_offset, file, line, col });
    }

    /// The most recent record at or before `output_offset`.
    pub fn lookup(&self, output_offset: usize) -> (r: Option<&LineMapEntry>)
        ensures
            match r {
                Some(e) => last_at_or_before(self.entries@, output_offset) >= 0 && *e
                    == self.entries@[last_at_or_before(self.entries@, output_offset)],
                None => last_at_or_before(self.entries@, output_offset) == -1,
            },
    {
        let mut i = self.entries.len();
        while i > 0
            invariant
                i <= self.entries@.len(),
                forall|k: int| i <= k < self.entries@.len() ==> #[trigger] self.entries@[k].output_offset > output_offset,
            decreases i,
        {
            if self.entries[i - 1].output_offset <= output_offset {
                proof {
                    lemma_last_at_or_before_range(self.entries@, output_offset);
                }
                return Some(&self.entries[i - 1]);
            }
            i = i - 1;
        }
        proof {
            lemma_last_at_or_before_range(self.entries@, output_offset);
            let j = last_at_or_before(self.entries@, output_offset);
            if j >= 0 {
                assert(self.entries@[j].output_offset > output_offset);
            }
        }
        None
    }

    /// The last record of the map, whatever the output line.
    pub fn lookup_line(&self, _output_line: u32) -> (r: Option<&LineMapEntry>)
        ensures
            match r {
                Some(e) => self.entries@.len() > 0 && *e == self.entries@.last(),
                None => self.entries@.len() == 0,
            },
    {
        if self.entries.len() == 0 {
            None
        } else {
            Some(&self.entries[self.entries.len() - 1])
        }
    }
}

} // verus!
