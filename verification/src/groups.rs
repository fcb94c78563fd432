//! Groups of entries: each group holds the entries of one range of the list of all
//! entries.

use core::ops::Range;
use vstd::prelude::*;

verus! {

/// A group of entries, by its name and the range of its entries.
#[derive(Debug)]
pub struct Group {
    pub name: String,
    pub range: Range<usize>,
}

/// The range of a group after the entry at `removed` has left the list of all entries:
/// a range behind the entry moves down by one, a range that holds the entry shrinks by
/// one, a range before the entry stays.
pub open spec fn range_after_removal(range: Range<usize>, removed: usize) -> Range<usize> {
    if removed < range.start {
        Range { start: (range.start - 1) as usize, end: (range.end - 1) as usize }
    } else if removed < range.end {
        Range { start: range.start, end: (range.end - 1) as usize }
    } else {
        range
    }
}

impl Group {
    pub fn new(name: String, range: Range<usize>) -> (group: Group)
        ensures
            group.name == name,
            group.range == range,
    {
        Group { name, range }
    }

    /// Adjusts the range to the removal of the entry at `removed_idx` from the list of
    /// all entries.
    pub fn remove_idx(&mut self, removed_idx: usize)
        requires
            old(self).range.start <= old(self).range.end,
        ensures
            final(self).range == range_after_removal(old(self).range, removed_idx),
            final(self).name == old(self).name,
            final(self).range.start <= final(self).range.end,
    {
        if removed_idx < self.range.start {
            self.range.start -= 1;
            self.range.end -= 1;
        } else if removed_idx < self.range.end {
            self.range.end -= 1;
        }
    }
}

/// Which entries stay when a site is built for production: those that are released.
/// Returns the positions of the entries that stay, in increasing order, and adjusts the
/// ranges of the groups to the removal of the others.
pub fn retain_released(groups: &mut Vec<Group>, released: &Vec<bool>) -> (kept: Vec<usize>)
    requires
        forall|g: int| 0 <= g < old(groups)@.len() ==> (#[trigger] old(groups)@[g]).range.start
            <= old(groups)@[g].range.end,
    ensures
        kept@ == released_positions(released@),
        final(groups)@.len() == old(groups)@.len(),
        forall|g: int|
            0 <= g < final(groups)@.len() ==> {
                &&& (#[trigger] final(groups)@[g]).range == range_after_removals(
                    old(groups)@[g].range,
                    released@,
                    0,
                )
                &&& final(groups)@[g].name == old(groups)@[g].name
            },
{
    let n = released.len();
    let mut idx = n;
    while idx > 0
        invariant
            idx <= n,
            n == released@.len(),
            groups@.len() == old(groups)@.len(),
            forall|g: int|
                0 <= g < groups@.len() ==> (#[trigger] groups@[g]).range.start
                    <= groups@[g].range.end,
            forall|g: int|
                0 <= g < groups@.len() ==> (#[trigger] groups@[g]).range == range_after_removals(
                    old(groups)@[g].range,
                    released@,
                    idx as int,
                ) && groups@[g].name == old(groups)@[g].name,
        decreases idx,
    {
        idx -= 1;
        if !released[idx] {
            let mut g: usize = 0;
            let ghost before = groups@;
            while g < groups.len()
                invariant
                    g <= groups@.len(),
                    idx < n,
                    n == released@.len(),
                    !released@[idx as int],
                    groups@.len() == before.len(),
                    before.len() == old(groups)@.len(),
                    forall|h: int|
                        0 <= h < before.len() ==> (#[trigger] before[h]).range.start
                            <= before[h].range.end,
                    forall|h: int|
                        0 <= h < before.len() ==> (#[trigger] before[h]).range
                            == range_after_removals(old(groups)@[h].range, released@, idx + 1)
                            && before[h].name == old(groups)@[h].name,
                    forall|h: int|
                        g <= h < groups@.len() ==> #[trigger] groups@[h] == before[h],
                    forall|h: int|
                        0 <= h < g ==> (#[trigger] groups@[h]).range == range_after_removal(
                            before[h].range,
                            idx,
                        ) && groups@[h].name == before[h].name && groups@[h].range.start
                            <= groups@[h].range.end,
                decreases groups@.len() - g,
            {
                groups[g].remove_idx(idx);
                g += 1;
            }
        }
    }
    let mut kept: Vec<usize> = Vec::new();
    let mut i: usize = 0;
    assert(released@.take(0) =~= Seq::empty());
    while i < n
        invariant
            i <= n,
            n == released@.len(),
            kept@ == released_positions(released@.take(i as int)),
        decreases n - i,
    {
        proof {
            assert(released@.take(i + 1).drop_last() =~= released@.take(i as int));
        }
        if released[i] {
            kept.push(i);
        }
        i += 1;
    }
    assert(released@.take(n as int) =~= released@);
    kept
}

/// The positions at which `released` holds `true`, in increasing order.
pub open spec fn released_positions(released: Seq<bool>) -> Seq<usize>
    decreases released.len(),
{
    if released.len() == 0 {
        Seq::empty()
    } else if released.last() {
        released_positions(released.drop_last()).push((released.len() - 1) as usize)
    } else {
        released_positions(released.drop_last())
    }
}

/// The range of a group after every entry from position `from` on that is not released
/// has left the list of all entries, the last one first.
pub open spec fn range_after_removals(range: Range<usize>, released: Seq<bool>, from: int) -> Range<
    usize,
>
    decreases released.len() - from,
{
    if from < 0 || from >= released.len() {
        range
    } else if released[from] {
        range_after_removals(range, released, from + 1)
    } else {
        range_after_removal(range_after_removals(range, released, from + 1), from as usize)
    }
}

} // verus!
