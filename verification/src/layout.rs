//! Geometry of a slotted data page.
use vstd::prelude::*;

verus! {

/// Bytes at the start of every page that hold the page header.
pub const PAGE_HEADER_SIZE: usize = 17;

/// Bytes of one slot entry (offset and length of a record).
pub const SLOT_SIZE: usize = 4;

/// Smallest page size a layout accepts: the smallest power of two that
/// holds the page header and one slot entry (21 bytes).
pub const MIN_PAGE_SIZE: usize = 32;

/// Largest page size a layout accepts: the largest power of two for which
/// every page of a table's free space map has an `i32` page id. Pages of
/// this size give 32748 slots per tree and three levels, so the map has
/// 1 + 32748 + 32748 * 32748 = 1_072_464_253 pages; at twice the size the
/// bottom level alone would have 65516 * 65516 > `i32::MAX` pages.
pub const MAX_PAGE_SIZE: usize = 65536;

/// `n` is 1, 2, 4, 8, ...
pub open spec fn is_power_of_two(n: nat) -> bool
    decreases n,
{
    if n <= 1 {
        n == 1
    } else {
        n % 2 == 0 && is_power_of_two(n / 2)
    }
}

/// The page sizes a layout can be made with.
pub open spec fn valid_page_size(n: nat) -> bool {
    &&& is_power_of_two(n)
    &&& MIN_PAGE_SIZE <= n <= MAX_PAGE_SIZE
}

/// Checks whether `n` is a power of two by halving it.
fn check_power_of_two(n: usize) -> (r: bool)
    ensures
        r == is_power_of_two(n as nat),
{
    let mut m = n;
    while m > 1 && m % 2 == 0
        invariant
            is_power_of_two(n as nat) == is_power_of_two(m as nat),
        decreases m,
    {
        m = m / 2;
    }
    m == 1
}

/// The layout of pages of one fixed size.
#[derive(Clone, Copy, Debug)]
pub struct PageDataLayout {
    page_size: usize,
}

impl PageDataLayout {
    #[verifier::type_invariant]
    spec fn inv(self) -> bool {
        valid_page_size(self.page_size as nat)
    }

    /// The size of a page in bytes.
    pub closed spec fn spec_page_size(&self) -> usize {
        self.page_size
    }

    /// A layout for pages of `page_size` bytes, if that size is a power of
    /// two within the accepted bounds.
    pub fn new(page_size: usize) -> (r: Option<Self>)
        ensures
            r is Some <==> valid_page_size(page_size as nat),
            r matches Some(l) ==> l.spec_page_size() == page_size,
    {
        if page_size < MIN_PAGE_SIZE || page_size > MAX_PAGE_SIZE {
            return None;
        }
        if !check_power_of_two(page_size) {
            return None;
        }
        Some(PageDataLayout { page_size })
    }

    /// The size of a page in bytes.
    #[verifier::when_used_as_spec(spec_page_size)]
    pub fn page_size(&self) -> (r: usize)
        ensures
            r == self.spec_page_size(),
            valid_page_size(r as nat),
    {
        proof {
            use_type_invariant(self);
        }
        self.page_size
    }

    /// Bytes of a page behind its header.
    pub fn page_data_size(&self) -> (r: usize)
        ensures
            r == self.spec_page_size() - PAGE_HEADER_SIZE,
    {
        proof {
            use_type_invariant(self);
        }
        self.page_size - PAGE_HEADER_SIZE
    }

    /// The largest record that fits on an empty page: the data area less
    /// the slot that points to the record.
    pub fn max_tupel_size(&self) -> (r: usize)
        ensures
            r == self.spec_page_size() - PAGE_HEADER_SIZE - SLOT_SIZE,
    {
        proof {
            use_type_invariant(self);
        }
        self.page_size - PAGE_HEADER_SIZE - SLOT_SIZE
    }
}

} // verus!
