use vstd::prelude::*;

verus! {

/// Start address and size of one loaded section of the kernel image.
#[derive(Clone, Copy, Debug, PartialEq, Eq, Structural)]
pub struct SectionBounds {
    pub addr: u64,
    pub size: u64,
}

/// The first address past a section.
pub open spec fn section_end(s: SectionBounds) -> int {
    s.addr + s.size
}

/// Which section end closes the kernel's range.
#[derive(Clone, Copy, Debug, PartialEq, Eq, Structural)]
pub enum KernelEnd {
    /// The smallest section end; it can fall inside the image, so the range
    /// may be too short or empty.
    LowestSectionEnd,
    /// The largest section end, which covers every section.
    HighestSectionEnd,
}

/// `start` is the lowest section address.
pub open spec fn is_lowest_start(sections: Seq<SectionBounds>, start: int) -> bool {
    &&& exists|i: int| 0 <= i < sections.len() && #[trigger] sections[i].addr == start
    &&& forall|i: int| 0 <= i < sections.len() ==> start <= #[trigger] sections[i].addr
}

/// `end` is the section end that `rule` picks.
pub open spec fn is_chosen_end(sections: Seq<SectionBounds>, rule: KernelEnd, end: int) -> bool {
    &&& exists|i: int| 0 <= i < sections.len() && #[trigger] section_end(sections[i]) == end
    &&& forall|i: int|
        0 <= i < sections.len() ==> match rule {
            KernelEnd::LowestSectionEnd => end <= #[trigger] section_end(sections[i]),
            KernelEnd::HighestSectionEnd => end >= #[trigger] section_end(sections[i]),
        }
}

/// The kernel image's address range from its sections: the lowest section
/// address, and the section end that `rule` picks; nothing when there are
/// no sections.
pub fn kernel_range(sections: &Vec<SectionBounds>, rule: KernelEnd) -> (r: Option<(u64, u64)>)
    requires
        forall|i: int| 0 <= i < sections@.len() ==> #[trigger] section_end(sections@[i]) <= u64::MAX,
    ensures
        r is None <==> sections@.len() == 0,
        r matches Some((start, end)) ==> is_lowest_start(sections@, start as int) && is_chosen_end(
            sections@,
            rule,
            end as int,
        ),
{
    if sections.len() == 0 {
        return None;
    }
    let first = sections[0];
    assert(section_end(sections@[0]) <= u64::MAX);
    let mut start: u64 = first.addr;
    let mut end: u64 = first.addr + first.size;
    assert(sections@.take(1)[0] == first);
    let mut i: usize = 1;
    while i < sections.len()
        invariant
            1 <= i <= sections@.len(),
            forall|k: int| 0 <= k < sections@.len() ==> #[trigger] section_end(sections@[k]) <= u64::MAX,
            is_lowest_start(sections@.take(i as int), start as int),
            is_chosen_end(sections@.take(i as int), rule, end as int),
        decreases sections@.len() - i,
    {
        let s = sections[i];
        assert(section_end(sections@[i as int]) <= u64::MAX);
        let s_end = s.addr + s.size;
        if s.addr < start {
            start = s.addr;
        }
        match rule {
            KernelEnd::LowestSectionEnd => {
                if s_end < end {
                    end = s_end;
                }
            },
            KernelEnd::HighestSectionEnd => {
                if s_end > end {
                    end = s_end;
                }
            },
        }
        let ghost prev = sections@.take(i as int);
        let ghost next = sections@.take(i as int + 1);
        assert(next =~= prev.push(s));
        assert(next[i as int] == s);
        assert forall|k: int| 0 <= k < i implies next[k] == prev[k] by {}
        i = i + 1;
    }
    assert(sections@.take(i as int) =~= sections@);
    Some((start, end))
}

} // verus!
