//! Preparing an incremental backup: which log it goes by, and which summaries of it are read.
use crate::http::strings_view;
use crate::incremental::{
    check_coverage, covered, first_range, gap_text, in_order, needed_ranges, required_ranges,
    sort_summaries, summary_file, summary_path, HistoryEntry, Modified, Prepared, Summary,
};
use crate::incremental_manifest::{Uploaded, WalRange};
use crate::refusal::Refusal;
use vstd::prelude::*;

verus! {

/// What log summaries cover.
pub open spec fn spans(s: Seq<Summary>) -> Seq<(u64, u64)> {
    Seq::new(s.len(), |i: int| (s[i].start, s[i].end))
}

/// The names of the files that hold summaries.
pub open spec fn summary_files(s: Seq<Summary>) -> Seq<Seq<char>> {
    Seq::new(s.len(), |i: int| summary_file(s[i]))
}

/// An incremental backup that is being prepared.
pub struct Preparing {
    pub reference: Uploaded,
    /// The log that the backup goes by, oldest first.
    pub ranges: Vec<WalRange>,
    /// How many ranges were seen to.
    pub seen: usize,
}

impl Preparing {
    pub open spec fn wf(&self) -> bool {
        self.ranges@.len() > 0 && self.seen <= self.ranges@.len() && self.reference.files.wf()
    }

    /// Begins with the manifest of the previous backup, the history of the timeline that the
    /// backup is taken on, newest first, and where the backup starts.
    pub fn begin(reference: Uploaded, history: &[HistoryEntry], start: u64) -> (r: Result<
        Preparing,
        Refusal,
    >)
        requires
            reference.files.wf(),
        ensures
            match needed_ranges(reference.ranges@, history@, start) {
                Err(e) => r is Err && r->Err_0@ == e,
                Ok(ranges) => if ranges.len() == 0 {
                    r is Err && r->Err_0@ == "empty incremental range"@
                } else {
                    &&& r is Ok
                    &&& r->Ok_0.wf()
                    &&& r->Ok_0.reference == reference
                    &&& r->Ok_0.ranges@ == ranges
                    &&& r->Ok_0.seen == 0
                },
            },
    {
        let ranges = match required_ranges(reference.ranges.as_slice(), history, start) {
            Ok(v) => v,
            Err(e) => return Err(e),
        };
        match first_range(&ranges) {
            Ok(_) => Ok(Preparing { reference, ranges, seen: 0 }),
            Err(e) => Err(e),
        }
    }

    /// Where the log that the backup goes by begins, and on which timeline.
    pub fn origin(&self) -> (r: (u64, u32))
        requires
            self.wf(),
        ensures
            r == (self.ranges@[0].start, self.ranges@[0].tli),
    {
        (self.ranges[0].start, self.ranges[0].tli)
    }

    /// The range whose summaries are wanted next.
    pub fn wanted(&self) -> (r: Option<WalRange>)
        requires
            self.wf(),
        ensures
            r == (if self.seen < self.ranges@.len() {
                Some(self.ranges@[self.seen as int])
            } else {
                None
            }),
    {
        if self.seen < self.ranges.len() {
            Some(self.ranges[self.seen])
        } else {
            None
        }
    }

    /// Takes the summaries that there are for the range that is wanted: which files to read, in
    /// the order of the log. They must cover the range without a gap.
    pub fn take_summaries(&mut self, files: &Vec<Summary>) -> (r: Result<Vec<String>, Refusal>)
        requires
            old(self).wf(),
            old(self).seen < old(self).ranges@.len(),
        ensures
            final(self).wf(),
            final(self).reference == old(self).reference,
            final(self).ranges == old(self).ranges,
            exists|s: Seq<Summary>| #[trigger]
                in_order(s) && s.to_multiset() == files@.to_multiset() && ({
                    let range = old(self).ranges@[old(self).seen as int];
                    match covered(range.start, spans(s), range.end) {
                        Err(at) => r is Err && r->Err_0@ == gap_text(range.tli, at)
                            && final(self).seen == old(self).seen,
                        Ok(_) => r is Ok && strings_view(r->Ok_0@) == summary_files(s)
                            && final(self).seen == old(self).seen + 1,
                    }
                }),
    {
        let range = self.ranges[self.seen];
        assert(self.seen < self.ranges.len());
        let sorted = sort_summaries(files);
        let mut cover: Vec<(u64, u64)> = Vec::new();
        let mut paths: Vec<String> = Vec::new();
        let mut i: usize = 0;
        while i < sorted.len()
            invariant
                i <= sorted@.len(),
                cover@ == spans(sorted@.take(i as int)),
                strings_view(paths@) == summary_files(sorted@.take(i as int)),
            decreases sorted@.len() - i,
        {
            let s = sorted[i];
            let path = summary_path(&s);
            let ghost before = paths@;
            cover.push((s.start, s.end));
            paths.push(path);
            i += 1;
            proof {
                let t = sorted@.take(i as int);
                assert(t.drop_last() =~= sorted@.take(i - 1));
                assert(cover@ =~= spans(t));
                assert(strings_view(paths@) =~= strings_view(before).push(path@));
                assert(strings_view(paths@) =~= summary_files(t));
            }
        }
        proof {
            assert(sorted@.take(i as int) =~= sorted@);
        }
        match check_coverage(&range, cover.as_slice()) {
            Err(e) => Err(e),
            Ok(_) => {
                self.seen += 1;
                Ok(paths)
            },
        }
    }

    /// All summaries were read, and say this of the relations.
    pub fn finish(self, table: Vec<Modified>) -> (r: Prepared)
        requires
            self.wf(),
            self.seen == self.ranges@.len(),
        ensures
            r.reference == self.reference,
            r.table == table,
    {
        Prepared { reference: self.reference, table }
    }
}

} // verus!
