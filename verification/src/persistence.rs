//! Which cachelines a flush has to write back.
//!
//! Persisting a range of bytes means to write back every cacheline that holds one of them
//! and then to issue a store fence. The instructions themselves depend on the platform; which
//! lines to write back does not.
use crate::layout::CACHELINE;
use vstd::prelude::*;

verus! {

/// Where the cacheline that holds `addr` starts.
pub open spec fn line_of(addr: int) -> int {
    addr / 64 * 64
}

/// The starts of the cachelines that hold the `len` bytes from `addr` on, in order.
pub open spec fn lines(addr: int, len: int) -> Seq<int> {
    if len <= 0 {
        Seq::empty()
    } else {
        Seq::new(
            ((line_of(addr + len - 1) - line_of(addr)) / 64 + 1) as nat,
            |i: int| line_of(addr) + 64 * i,
        )
    }
}

/// The first cacheline to write back to persist the `len` bytes from `addr` on; none if
/// there are no bytes.
pub fn first_line(addr: usize, len: usize) -> (line: Option<usize>)
    ensures
        line is None <==> len == 0,
        line matches Some(l) ==> l == lines(addr as int, len as int)[0],
{
    if len == 0 {
        None
    } else {
        Some(addr / CACHELINE * CACHELINE)
    }
}

/// The cacheline to write back after `line`; none if the bytes end before it.
pub fn next_line(line: usize, addr: usize, len: usize) -> (next: Option<usize>)
    requires
        addr + len <= usize::MAX,
        lines(addr as int, len as int).contains(line as int),
    ensures
        ({
            let all = lines(addr as int, len as int);
            let i = (line - line_of(addr as int)) / 64;
            &&& 0 <= i < all.len()
            &&& all[i] == line
            &&& next == (if i + 1 < all.len() {
                Some(all[i + 1] as usize)
            } else {
                None
            })
        }),
{
    let end: usize = addr + len;
    if end - line > CACHELINE {
        Some(line + CACHELINE)
    } else {
        None
    }
}

/// The lines that are written back hold every byte of the range, and each of them holds at
/// least one.
pub proof fn law_lines_cover(addr: int, len: int, byte: int)
    requires
        0 <= addr,
        0 < len,
    ensures
        addr <= byte < addr + len ==> lines(addr, len).contains(line_of(byte)),
        forall|i: int|
            #![trigger lines(addr, len)[i]]
            0 <= i < lines(addr, len).len() ==> lines(addr, len)[i] % 64 == 0 && lines(addr, len)[i]
                < addr + len && addr < lines(addr, len)[i] + 64,
{
    if addr <= byte < addr + len {
        let i = (line_of(byte) - line_of(addr)) / 64;
        assert(lines(addr, len)[i] == line_of(byte));
    }
}

/// The lines are written back from the lowest to the highest, each once and without a gap.
pub proof fn law_lines_ascend(addr: int, len: int, i: int)
    requires
        0 <= addr,
        0 < len,
        0 <= i < lines(addr, len).len(),
    ensures
        lines(addr, len)[i] == lines(addr, len)[0] + 64 * i,
        lines(addr, len)[0] <= addr < lines(addr, len)[0] + 64,
        lines(addr, len).last() < addr + len <= lines(addr, len).last() + 64,
{
}

} // verus!
