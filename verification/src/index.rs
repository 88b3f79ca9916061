//! Registry index reader: an in-memory view of one backing store's package
//! index, queried by exact name or by name prefix. The on-disk bytes are read
//! and decoded by the caller; this layer answers queries over the decoded
//! entries.

use vstd::prelude::*;

use crate::bytes::{bytes_eq, is_prefix, starts_with};
use crate::model::{clone_summary, SourceId, Summary, SummaryV};

verus! {

/// The models of a list of summaries.
pub open spec fn summary_models(s: Seq<Summary>) -> Seq<SummaryV> {
    Seq::new(s.len(), |i: int| s[i]@)
}

/// All entries of `entries` for the package `name`, in stored order.
pub open spec fn query_spec(entries: Seq<SummaryV>, name: Seq<u8>) -> Seq<SummaryV> {
    entries.filter(|s: SummaryV| s.pid.name == name)
}

/// All entries of `entries` whose package name starts with `prefix`, in
/// stored order.
pub open spec fn fuzzy_query_spec(entries: Seq<SummaryV>, prefix: Seq<u8>) -> Seq<SummaryV> {
    entries.filter(|s: SummaryV| is_prefix(prefix, s.pid.name))
}

/// One backing store's index: its own (physical) source identity, its
/// entries, and whether the store supplies content checksums or requires
/// exact version pins.
pub struct LocalIndex {
    pub source: SourceId,
    pub entries: Vec<Summary>,
    pub checksums: bool,
    pub precise: bool,
}

impl LocalIndex {
    /// Every entry belongs to this index's own source.
    pub open spec fn wf(self) -> bool {
        forall|i: int| 0 <= i < self.entries@.len() ==> (#[trigger] self.entries@[i]@).pid.source
            == self.source@
    }

    /// The models of this index's entries.
    pub open spec fn models(self) -> Seq<SummaryV> {
        summary_models(self.entries@)
    }

    /// An empty index for one source.
    pub fn new(source: SourceId, checksums: bool, precise: bool) -> (r: LocalIndex)
        ensures
            r.wf(),
            r.source@ == source@,
            r.models() == Seq::<SummaryV>::empty(),
            r.checksums == checksums,
            r.precise == precise,
    {
        let r = LocalIndex { source, entries: Vec::new(), checksums, precise };
        proof {
            assert(r.models() =~= Seq::<SummaryV>::empty());
        }
        r
    }

    /// Adds one version's summary to the index.
    pub fn add(&mut self, entry: Summary)
        requires
            old(self).wf(),
            entry@.pid.source == old(self).source@,
        ensures
            final(self).wf(),
            final(self).source == old(self).source,
            final(self).checksums == old(self).checksums,
            final(self).precise == old(self).precise,
            final(self).models() == old(self).models().push(entry@),
    {
        self.entries.push(entry);
        proof {
            assert(self.models() =~= old(self).models().push(entry@));
        }
    }

    /// Whether the backing store can supply content checksums.
    pub fn supports_checksums(&self) -> (r: bool)
        ensures
            r == self.checksums,
    {
        self.checksums
    }

    /// Whether the backing store pins entries to exact, non-range versions.
    pub fn requires_precise(&self) -> (r: bool)
        ensures
            r == self.precise,
    {
        self.precise
    }

    /// All known summaries for the package `name`, in stored order. A name
    /// the store does not know yields an empty sequence, not an error.
    pub fn query(&self, name: &Vec<u8>) -> (r: Vec<Summary>)
        ensures
            summary_models(r@) == query_spec(self.models(), name@),
    {
        let ghost pred = |s: SummaryV| s.pid.name == name@;
        let mut r: Vec<Summary> = Vec::new();
        let n = self.entries.len();
        let mut i: usize = 0;
        proof {
            assert(self.models().subrange(0, 0) =~= Seq::<SummaryV>::empty());
            assert(summary_models(r@) =~= Seq::<SummaryV>::empty());
        }
        while i < n
            invariant
                n == self.entries@.len(),
                0 <= i <= n,
                pred == (|s: SummaryV| s.pid.name == name@),
                summary_models(r@) == self.models().subrange(0, i as int).filter(pred),
            decreases n - i,
        {
            proof {
                assert(self.models().subrange(0, i as int + 1) =~= self.models().subrange(
                    0,
                    i as int,
                ).push(self.entries@[i as int]@));
            }
            let matches = bytes_eq(&self.entries[i].pid.name, name);
            if matches {
                r.push(clone_summary(&self.entries[i]));
            }
            proof {
                let prev = self.models().subrange(0, i as int);
                let cur = self.models().subrange(0, i as int + 1);
                let e = self.entries@[i as int]@;
                reveal_with_fuel(Seq::filter, 2);
                assert(cur.drop_last() =~= prev);
                assert(cur.last() == e);
                assert(cur.filter(pred) == if pred(e) {
                    prev.filter(pred).push(e)
                } else {
                    prev.filter(pred)
                });
                if matches {
                    assert(summary_models(r@) =~= prev.filter(pred).push(e));
                }
            }
            i = i + 1;
        }
        proof {
            assert(self.models().subrange(0, n as int) =~= self.models());
        }
        r
    }

    /// All summaries whose package name starts with `prefix` (typo-tolerant
    /// discovery), in stored order.
    pub fn fuzzy_query(&self, prefix: &Vec<u8>) -> (r: Vec<Summary>)
        ensures
            summary_models(r@) == fuzzy_query_spec(self.models(), prefix@),
    {
        let ghost pred = |s: SummaryV| is_prefix(prefix@, s.pid.name);
        let mut r: Vec<Summary> = Vec::new();
        let n = self.entries.len();
        let mut i: usize = 0;
        proof {
            assert(summary_models(r@) =~= Seq::<SummaryV>::empty());
        }
        while i < n
            invariant
                n == self.entries@.len(),
                0 <= i <= n,
                pred == (|s: SummaryV| is_prefix(prefix@, s.pid.name)),
                summary_models(r@) == self.models().subrange(0, i as int).filter(pred),
            decreases n - i,
        {
            proof {
                assert(self.models().subrange(0, i as int + 1) =~= self.models().subrange(
                    0,
                    i as int,
                ).push(self.entries@[i as int]@));
            }
            let matches = starts_with(&self.entries[i].pid.name, prefix);
            if matches {
                r.push(clone_summary(&self.entries[i]));
            }
            proof {
                let prev = self.models().subrange(0, i as int);
                let cur = self.models().subrange(0, i as int + 1);
                let e = self.entries@[i as int]@;
                reveal_with_fuel(Seq::filter, 2);
                assert(cur.drop_last() =~= prev);
                assert(cur.last() == e);
                assert(cur.filter(pred) == if pred(e) {
                    prev.filter(pred).push(e)
                } else {
                    prev.filter(pred)
                });
                if matches {
                    assert(summary_models(r@) =~= prev.filter(pred).push(e));
                }
            }
            i = i + 1;
        }
        proof {
            assert(self.models().subrange(0, n as int) =~= self.models());
        }
        r
    }
}

} // verus!
