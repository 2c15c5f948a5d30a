//! Index sections: half-open offset ranges over the source buffer, the
//! universal addressing unit. Sections never own text; only the renderer
//! materializes output.

use vstd::prelude::*;

verus! {

/// A half-open offset range `[start, end)` over the source buffer.
#[derive(Clone, Copy, Debug, PartialEq, Eq, Structural)]
pub struct Section {
    pub start: usize,
    pub end: usize,
}

impl View for Section {
    type V = (int, int);

    open spec fn view(&self) -> (int, int) {
        (self.start as int, self.end as int)
    }
}

/// The spans of a sequence of sections, as ghost pairs.
pub open spec fn sections_view(ss: Seq<Section>) -> Seq<(int, int)> {
    ss.map_values(|s: Section| s@)
}

/// A sequence of machine indexes, read as mathematical integers.
pub open spec fn indexes_view(s: Seq<usize>) -> Seq<int> {
    Seq::new(s.len(), |j: int| s[j] as int)
}

/// The inclusive index range `[a, b]`, empty when `b < a`.
pub open spec fn range_incl(a: int, b: int) -> Seq<int> {
    if b < a {
        Seq::empty()
    } else {
        Seq::new((b + 1 - a) as nat, |k: int| a + k)
    }
}

/// The index positions covered by the sections from `i` on, each section
/// contributing its start through its end inclusive.
pub open spec fn indexes_from(ss: Seq<(int, int)>, i: int) -> Seq<int>
    decreases ss.len() - i,
{
    if !(0 <= i < ss.len()) {
        Seq::empty()
    } else {
        range_incl(ss[i].0, ss[i].1) + indexes_from(ss, i + 1)
    }
}

impl Section {
    /// Make a section from its two offsets.
    pub fn new(start: usize, end: usize) -> (result: Section)
        ensures
            result.start == start,
            result.end == end,
    {
        Section { start, end }
    }

    /// Expand a slice of sections into the flat list of index positions
    /// each one covers, start through end inclusive.
    pub fn slice_to_index(sections: &[Section]) -> (result: Vec<usize>)
        requires
            forall|k: int|
                0 <= k < sections@.len() ==> (#[trigger] sections@[k]).end < usize::MAX,
        ensures
            indexes_view(result@) == indexes_from(sections_view(sections@), 0),
    {
        let ghost ssv = sections_view(sections@);
        let mut indexes: Vec<usize> = Vec::new();
        proof {
            assert(indexes_from(ssv, 0) =~= indexes_view(indexes@) + indexes_from(ssv, 0));
        }
        let mut k: usize = 0;
        while k < sections.len()
            invariant
                0 <= k <= sections@.len(),
                ssv == sections_view(sections@),
                forall|j: int|
                    0 <= j < sections@.len() ==> (#[trigger] sections@[j]).end < usize::MAX,
                indexes_from(ssv, 0) == indexes_view(indexes@) + indexes_from(ssv, k as int),
            decreases sections@.len() - k,
        {
            let s = sections[k];
            let ghost before = indexes@;
            proof {
                assert(indexes_view(indexes@) =~= indexes_view(before) + range_incl(
                    s.start as int,
                    s.start - 1,
                ));
            }
            let mut i: usize = s.start;
            while i < s.end + 1
                invariant
                    s.end < usize::MAX,
                    s.start <= i <= s.end + 1 || (s.end + 1 < s.start && i == s.start),
                    indexes_view(indexes@) == indexes_view(before) + range_incl(
                        s.start as int,
                        i - 1,
                    ),
                decreases s.end + 1 - i,
            {
                let ghost pre = indexes@;
                indexes.push(i);
                proof {
                    assert(indexes@ == pre.push(i));
                    assert(indexes_view(indexes@) =~= indexes_view(pre) + seq![i as int]);
                    assert(range_incl(s.start as int, i as int) =~= range_incl(
                        s.start as int,
                        i - 1,
                    ) + seq![i as int]);
                    assert(indexes_view(indexes@) =~= indexes_view(before) + range_incl(
                        s.start as int,
                        i as int,
                    ));
                }
                i = i + 1;
            }
            proof {
                assert(range_incl(s.start as int, i - 1) =~= range_incl(s@.0, s@.1));
                assert(ssv[k as int] == s@);
                assert(indexes_from(ssv, k as int) == range_incl(s@.0, s@.1) + indexes_from(
                    ssv,
                    k as int + 1,
                ));
                assert(indexes_view(indexes@) + indexes_from(ssv, k as int + 1) =~= (
                indexes_view(before) + indexes_from(ssv, k as int)));
            }
            k = k + 1;
        }
        proof {
            assert(indexes_from(ssv, 0) =~= indexes_view(indexes@));
        }
        indexes
    }

    /// Expand a vector of sections the same way.
    pub fn to_index(sections: &Vec<Section>) -> (result: Vec<usize>)
        requires
            forall|k: int|
                0 <= k < sections@.len() ==> (#[trigger] sections@[k]).end < usize::MAX,
        ensures
            indexes_view(result@) == indexes_from(sections_view(sections@), 0),
    {
        Section::slice_to_index(sections.as_slice())
    }
}

} // verus!
