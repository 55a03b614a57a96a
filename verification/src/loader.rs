//! Loading program-image segments into the address space.

use vstd::prelude::*;

use crate::memory::{dir_index, table_index, MemoryManager};

verus! {

/// A fatal load failure: a segment reaches past the 32-bit address space,
/// so no valid memory image can be built for it.
#[derive(Clone, Copy, Debug, PartialEq, Eq, Structural)]
pub struct AddressSpaceOverflow;

/// A program-image segment as plain values: a virtual load address, the
/// number of bytes present in the image, the (possibly larger) size the
/// segment occupies in memory, and the image bytes themselves.
#[derive(Clone, Debug)]
pub struct Segment {
    pub virtual_address: u32,
    pub file_size: u32,
    pub memory_size: u32,
    pub source_bytes: Vec<u8>,
}

impl Segment {
    /// A segment carries at least `file_size` image bytes.
    pub open spec fn wf(self) -> bool {
        self.source_bytes@.len() >= self.file_size
    }

    /// Whether the loaded segment covers address `a`.
    pub open spec fn covers(self, a: u32) -> bool {
        self.virtual_address <= a < self.virtual_address as int + self.memory_size as int
    }

    /// The byte the segment puts at covered address `a`: an image byte
    /// within the first `file_size` bytes, zero fill beyond them.
    pub open spec fn byte_at(self, a: u32) -> u8 {
        if a - self.virtual_address < self.file_size {
            self.source_bytes@[a - self.virtual_address]
        } else {
            0
        }
    }

    /// Whether the segment stays inside the 32-bit address space.
    pub open spec fn fits(self) -> bool {
        self.virtual_address as int + self.memory_size as int <= u32::MAX as int
    }
}

/// Loads one segment: ensures a page for every covered address, writes the
/// image bytes at the first `file_size` offsets and zero elsewhere.  A
/// segment that reaches past the 32-bit space is rejected before any page
/// is mapped.
pub fn load_segment(memory: &mut MemoryManager, seg: &Segment) -> (r: Result<
    (),
    AddressSpaceOverflow,
>)
    requires
        old(memory).wf(),
        seg.wf(),
    ensures
        final(memory).wf(),
        !seg.fits() ==> {
            &&& r == Err::<(), AddressSpaceOverflow>(AddressSpaceOverflow)
            &&& *final(memory) == *old(memory)
        },
        seg.fits() ==> {
            &&& r == Ok::<(), AddressSpaceOverflow>(())
            &&& forall|a: u32|
                seg.covers(a) ==> #[trigger] final(memory).spec_mapped(a) && final(memory).spec_byte(a) == seg.byte_at(a)
            &&& forall|a: u32|
                old(memory).spec_mapped(a) ==> #[trigger] final(memory).spec_mapped(a)
            &&& forall|a: u32|
                !seg.covers(a) && old(memory).spec_mapped(a) ==> #[trigger] final(memory).spec_byte(a) == old(memory).spec_byte(a)
            &&& forall|a: u32|
                !seg.covers(a) && !old(memory).spec_mapped(a) && #[trigger] final(memory).spec_mapped(a) ==> final(memory).spec_byte(a) == 0
            &&& forall|a: u32|
                #[trigger] final(memory).spec_mapped(a) ==> old(memory).spec_mapped(a) || exists|
                    b: u32,
                |
                    #[trigger] seg.covers(b) && dir_index(b) == dir_index(a) && table_index(b)
                        == table_index(a)
            &&& forall|a: u32|
                (exists|b: u32|
                    #[trigger] seg.covers(b) && dir_index(b) == dir_index(a) && table_index(b)
                        == table_index(a)) ==> #[trigger] final(memory).spec_mapped(a)
        },
{
    let va = seg.virtual_address;
    let ms = seg.memory_size;
    if va as u64 + ms as u64 > 0xffffffff {
        return Err(AddressSpaceOverflow);
    }
    let mut off: u32 = 0;
    while off < ms
        invariant
            memory.wf(),
            seg.wf(),
            seg.fits(),
            va == seg.virtual_address,
            ms == seg.memory_size,
            off <= ms,
            forall|a: u32|
                va <= a < va as int + off ==> #[trigger] memory.spec_mapped(a) && memory.spec_byte(
                    a,
                ) == seg.byte_at(a),
            forall|a: u32| old(memory).spec_mapped(a) ==> #[trigger] memory.spec_mapped(a),
            forall|a: u32|
                !(va <= a < va as int + off) && old(memory).spec_mapped(a) ==> #[trigger] memory
                    .spec_byte(a) == old(memory).spec_byte(a),
            forall|a: u32|
                !(va <= a < va as int + off) && !old(memory).spec_mapped(a)
                    && #[trigger] memory.spec_mapped(a) ==> memory.spec_byte(a) == 0,
            forall|a: u32|
                #[trigger] memory.spec_mapped(a) ==> old(memory).spec_mapped(a) || exists|b: u32|
                    va <= b < va as int + off && #[trigger] dir_index(b) == dir_index(a)
                        && table_index(b) == table_index(a),
        decreases ms - off,
    {
        let ghost m1 = *memory;
        let a = va + off;
        let _ = memory.add_page(a);
        let ghost m2 = *memory;
        let b = if off < seg.file_size {
            seg.source_bytes[off as usize]
        } else {
            0
        };
        let _ = memory.set_byte(a, b);
        proof {
            assert forall|x: u32| va <= x < va as int + off + 1 implies #[trigger] memory
                .spec_mapped(x) && memory.spec_byte(x) == seg.byte_at(x) by {
                if x == a {
                    assert(memory.spec_byte(a) == b);
                } else {
                    assert(a == va + off);
                    assert(va <= x && (x as int) < va as int + off);
                    assert(m1.spec_mapped(x));
                    assert(m1.spec_byte(x) == seg.byte_at(x));
                    assert(m2.spec_mapped(x));
                    assert(m2.spec_byte(x) == m1.spec_byte(x));
                    assert(memory.spec_byte(x) == m2.spec_byte(x));
                }
            }
            assert forall|x: u32| old(memory).spec_mapped(x) implies #[trigger] memory.spec_mapped(
                x,
            ) by {
                assert(m1.spec_mapped(x));
                assert(m2.spec_mapped(x));
            }
            assert forall|x: u32|
                !(va <= x < va as int + off + 1) && old(memory).spec_mapped(x) implies #[trigger] memory
                .spec_byte(x) == old(memory).spec_byte(x) by {
                assert(m1.spec_mapped(x));
                assert(m1.spec_byte(x) == old(memory).spec_byte(x));
                assert(m2.spec_byte(x) == m1.spec_byte(x));
                assert(memory.spec_byte(x) == m2.spec_byte(x));
            }
            assert forall|x: u32|
                !(va <= x < va as int + off + 1) && !old(memory).spec_mapped(x)
                    && #[trigger] memory.spec_mapped(x) implies memory.spec_byte(x) == 0 by {
                assert(m2.spec_mapped(x));
                if m1.spec_mapped(x) {
                    assert(m1.spec_byte(x) == 0);
                    assert(m2.spec_byte(x) == 0);
                    assert(memory.spec_byte(x) == 0);
                } else {
                    assert(m2.spec_byte(x) == 0);
                    assert(memory.spec_byte(x) == 0);
                }
            }
            assert forall|x: u32| #[trigger] memory.spec_mapped(x) implies old(memory).spec_mapped(
                x,
            ) || exists|c: u32|
                va <= c < va as int + off + 1 && #[trigger] dir_index(c) == dir_index(x)
                    && table_index(c) == table_index(x) by {
                if !old(memory).spec_mapped(x) {
                    assert(m2.spec_mapped(x));
                    if m1.spec_mapped(x) {
                        let c = choose|c: u32|
                            va <= c < va as int + off && #[trigger] dir_index(c) == dir_index(x)
                                && table_index(c) == table_index(x);
                        assert(va <= c < va as int + off + 1 && dir_index(c) == dir_index(x)
                            && table_index(c) == table_index(x));
                    } else {
                        assert(dir_index(a) == dir_index(x) && table_index(a) == table_index(x));
                        assert(va <= a < va as int + off + 1 && dir_index(a) == dir_index(x)
                            && table_index(a) == table_index(x));
                    }
                }
            }
        }
        off = off + 1;
    }
    proof {
        assert forall|x: u32|
            (exists|b: u32|
                #[trigger] seg.covers(b) && dir_index(b) == dir_index(x) && table_index(b)
                    == table_index(x)) implies #[trigger] memory.spec_mapped(x) by {
            let b = choose|b: u32|
                #[trigger] seg.covers(b) && dir_index(b) == dir_index(x) && table_index(b)
                    == table_index(x);
            assert(memory.spec_mapped(b));
            crate::memory::lemma_same_page_mapped(*memory, x, b);
        }
        assert forall|x: u32| #[trigger] memory.spec_mapped(x) implies old(memory).spec_mapped(x)
            || exists|b: u32|
            #[trigger] seg.covers(b) && dir_index(b) == dir_index(x) && table_index(b)
                == table_index(x) by {
            if !old(memory).spec_mapped(x) {
                let c = choose|c: u32|
                    va <= c < va as int + ms && #[trigger] dir_index(c) == dir_index(x)
                        && table_index(c) == table_index(x);
                assert(seg.covers(c) && dir_index(c) == dir_index(x) && table_index(c)
                    == table_index(x));
            }
        }
    }
    Ok(())
}

/// The position of the last segment that covers `a`, or -1 when none does.
pub open spec fn last_covering(segs: Seq<Segment>, a: u32) -> int
    decreases segs.len(),
{
    if segs.len() == 0 {
        -1
    } else if segs.last().covers(a) {
        segs.len() - 1
    } else {
        last_covering(segs.drop_last(), a)
    }
}

/// `last_covering` is a position into the sequence, covers `a` when it is
/// not -1, and -1 means no segment covers `a`.
pub proof fn lemma_last_covering_bounds(segs: Seq<Segment>, a: u32)
    ensures
        -1 <= last_covering(segs, a) < segs.len(),
        last_covering(segs, a) >= 0 ==> segs[last_covering(segs, a)].covers(a),
        last_covering(segs, a) == -1 ==> forall|s: int|
            0 <= s < segs.len() ==> !(#[trigger] segs[s]).covers(a),
    decreases segs.len(),
{
    if segs.len() > 0 {
        lemma_last_covering_bounds(segs.drop_last(), a);
        if !segs.last().covers(a) {
            assert forall|s: int| 0 <= s < segs.len() && last_covering(segs, a) == -1 implies !(
            #[trigger] segs[s]).covers(a) by {
                if s < segs.len() - 1 {
                    assert(segs.drop_last()[s] == segs[s]);
                }
            }
        }
    }
}

/// Extending the scanned prefix by one segment moves the last cover to the
/// new segment exactly where it covers the address.
proof fn lemma_last_covering_take(segs: Seq<Segment>, n: int, a: u32)
    requires
        0 <= n < segs.len(),
    ensures
        last_covering(segs.take(n + 1), a) == if segs[n].covers(a) {
            n as int
        } else {
            last_covering(segs.take(n), a)
        },
{
    assert(segs.take(n + 1).last() == segs[n]);
    assert(segs.take(n + 1).drop_last() =~= segs.take(n));
}

/// Loads an ordered sequence of segments.  Every segment is first checked
/// against the 32-bit address space: on a violation the whole load is
/// rejected with nothing mapped or written.  On success each address takes
/// its byte from the last segment covering it.
pub fn load_segments(memory: &mut MemoryManager, segments: &Vec<Segment>) -> (r: Result<
    (),
    AddressSpaceOverflow,
>)
    requires
        old(memory).wf(),
        forall|s: int| 0 <= s < segments@.len() ==> (#[trigger] segments@[s]).wf(),
    ensures
        final(memory).wf(),
        (exists|s: int| 0 <= s < segments@.len() && !(#[trigger] segments@[s]).fits()) ==> {
            &&& r == Err::<(), AddressSpaceOverflow>(AddressSpaceOverflow)
            &&& *final(memory) == *old(memory)
        },
        (forall|s: int| 0 <= s < segments@.len() ==> (#[trigger] segments@[s]).fits()) ==> {
            &&& r == Ok::<(), AddressSpaceOverflow>(())
            &&& forall|a: u32|
                last_covering(segments@, a) >= 0 ==> #[trigger] final(memory).spec_mapped(a)
                    && final(memory).spec_byte(a) == segments@[last_covering(
                    segments@,
                    a,
                )].byte_at(a)
            &&& forall|a: u32|
                old(memory).spec_mapped(a) ==> #[trigger] final(memory).spec_mapped(a)
            &&& forall|a: u32|
                last_covering(segments@, a) == -1 && old(memory).spec_mapped(a)
                    ==> #[trigger] final(memory).spec_byte(a) == old(memory).spec_byte(a)
            &&& forall|a: u32|
                last_covering(segments@, a) == -1 && !old(memory).spec_mapped(a)
                    && #[trigger] final(memory).spec_mapped(a) ==> final(memory).spec_byte(a) == 0
            &&& forall|a: u32|
                #[trigger] final(memory).spec_mapped(a) ==> old(memory).spec_mapped(a) || exists|
                    s: int,
                    b: u32,
                |
                    0 <= s < segments@.len() && #[trigger] segments@[s].covers(b) && dir_index(
                        b,
                    ) == dir_index(a) && table_index(b) == table_index(a)
        },
{
    let mut n: usize = 0;
    while n < segments.len()
        invariant
            *memory == *old(memory),
            memory.wf(),
            n <= segments@.len(),
            forall|s: int| 0 <= s < n ==> (#[trigger] segments@[s]).fits(),
        decreases segments@.len() - n,
    {
        let seg = &segments[n];
        if seg.virtual_address as u64 + seg.memory_size as u64 > 0xffffffff {
            proof {
                assert(0 <= n < segments@.len() && !segments@[n as int].fits());
            }
            return Err(AddressSpaceOverflow);
        }
        n = n + 1;
    }
    let mut n: usize = 0;
    while n < segments.len()
        invariant
            memory.wf(),
            n <= segments@.len(),
            forall|s: int| 0 <= s < segments@.len() ==> (#[trigger] segments@[s]).wf(),
            forall|s: int| 0 <= s < segments@.len() ==> (#[trigger] segments@[s]).fits(),
            forall|a: u32|
                last_covering(segments@.take(n as int), a) >= 0 ==> #[trigger] memory.spec_mapped(
                    a,
                ) && memory.spec_byte(a) == segments@[last_covering(
                    segments@.take(n as int),
                    a,
                )].byte_at(a),
            forall|a: u32| old(memory).spec_mapped(a) ==> #[trigger] memory.spec_mapped(a),
            forall|a: u32|
                last_covering(segments@.take(n as int), a) == -1 && old(memory).spec_mapped(a)
                    ==> #[trigger] memory.spec_byte(a) == old(memory).spec_byte(a),
            forall|a: u32|
                last_covering(segments@.take(n as int), a) == -1 && !old(memory).spec_mapped(a)
                    && #[trigger] memory.spec_mapped(a) ==> memory.spec_byte(a) == 0,
            forall|a: u32|
                #[trigger] memory.spec_mapped(a) ==> old(memory).spec_mapped(a) || exists|
                    s: int,
                    b: u32,
                |
                    0 <= s < n && #[trigger] segments@[s].covers(b) && dir_index(b) == dir_index(
                        a,
                    ) && table_index(b) == table_index(a),
        decreases segments@.len() - n,
    {
        let ghost m1 = *memory;
        let _ = load_segment(memory, &segments[n]);
        proof {
            let ghost segn = segments@[n as int];
            assert forall|a: u32|
                last_covering(segments@.take(n as int + 1), a) >= 0 implies #[trigger] memory
                .spec_mapped(a) && memory.spec_byte(a) == segments@[last_covering(
                segments@.take(n as int + 1),
                a,
            )].byte_at(a) by {
                lemma_last_covering_take(segments@, n as int, a);
                if segn.covers(a) {
                    assert(memory.spec_mapped(a) && memory.spec_byte(a) == segn.byte_at(a));
                } else {
                    assert(last_covering(segments@.take(n as int), a) >= 0);
                    assert(m1.spec_mapped(a));
                    assert(m1.spec_byte(a) == segments@[last_covering(
                        segments@.take(n as int),
                        a,
                    )].byte_at(a));
                    assert(memory.spec_byte(a) == m1.spec_byte(a));
                }
            }
            assert forall|a: u32| old(memory).spec_mapped(a) implies #[trigger] memory.spec_mapped(
                a,
            ) by {
                assert(m1.spec_mapped(a));
            }
            assert forall|a: u32|
                last_covering(segments@.take(n as int + 1), a) == -1 && old(memory).spec_mapped(
                    a,
                ) implies #[trigger] memory.spec_byte(a) == old(memory).spec_byte(a) by {
                lemma_last_covering_take(segments@, n as int, a);
                assert(!segn.covers(a));
                assert(m1.spec_byte(a) == old(memory).spec_byte(a));
                assert(m1.spec_mapped(a));
                assert(memory.spec_byte(a) == m1.spec_byte(a));
            }
            assert forall|a: u32|
                last_covering(segments@.take(n as int + 1), a) == -1 && !old(memory).spec_mapped(
                    a,
                ) && #[trigger] memory.spec_mapped(a) implies memory.spec_byte(a) == 0 by {
                lemma_last_covering_take(segments@, n as int, a);
                assert(!segn.covers(a));
                if m1.spec_mapped(a) {
                    assert(m1.spec_byte(a) == 0);
                    assert(memory.spec_byte(a) == m1.spec_byte(a));
                } else {
                    assert(memory.spec_byte(a) == 0);
                }
            }
            assert forall|a: u32| #[trigger] memory.spec_mapped(a) implies old(memory).spec_mapped(
                a,
            ) || exists|s: int, b: u32|
                0 <= s < n + 1 && #[trigger] segments@[s].covers(b) && dir_index(b) == dir_index(
                    a,
                ) && table_index(b) == table_index(a) by {
                if !old(memory).spec_mapped(a) {
                    if m1.spec_mapped(a) {
                        let (s, b): (int, u32) = choose|s: int, b: u32|
                            0 <= s < n && #[trigger] segments@[s].covers(b) && dir_index(b)
                                == dir_index(a) && table_index(b) == table_index(a);
                        assert(0 <= s < n + 1 && segments@[s].covers(b) && dir_index(b)
                            == dir_index(a) && table_index(b) == table_index(a));
                    } else {
                        let b = choose|b: u32|
                            #[trigger] segn.covers(b) && dir_index(b) == dir_index(a)
                                && table_index(b) == table_index(a);
                        assert(0 <= n < n + 1 && segments@[n as int].covers(b) && dir_index(b)
                            == dir_index(a) && table_index(b) == table_index(a));
                    }
                }
            }
        }
        n = n + 1;
    }
    proof {
        assert(segments@.take(segments@.len() as int) =~= segments@);
    }
    Ok(())
}

} // verus!
