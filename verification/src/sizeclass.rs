//! Size-class table and size-to-class mapping.
//!
//! Small allocations are rounded up to one of a fixed set of classes: finely
//! spaced for small sizes, then geometric. Requests larger than the maximum
//! small class go to the large path.

use vstd::prelude::*;
use crate::sys::SysBoxSlice;

verus! {

/// Largest request served from the size classes. Above this: the large path.
pub const MAX_SMALL: usize = 262144;

/// Minimum object size and slot granularity.
pub const MIN_ALIGN: usize = 8;

/// Number of size classes including the sentinel at index 0.
pub const NUM_CLASSES: usize = 49;

/// The size-class object sizes, in bytes. Index 0 is unused: class ids start at
/// 1, so that 0 can mean "no class".
pub const CLASS_SIZES: [usize; 49] = [
    0,
    8, 16, 24, 32, 48, 64, 80, 96, 112, 128,
    160, 192, 224, 256,
    320, 384, 448, 512,
    640, 768, 896, 1024,
    1280, 1536, 1792, 2048,
    2560, 3072, 3584, 4096,
    5120, 6144, 7168, 8192,
    10240, 12288, 14336, 16384,
    20480, 24576, 28672, 32768,
    49152, 65536,
    98304, 131072,
    196608, 262144,
];

/// The object size of class `c`.
pub open spec fn class_size(c: int) -> int {
    CLASS_SIZES@[c] as int
}

/// Whether `c` names a real size class.
pub open spec fn is_class(c: int) -> bool {
    1 <= c < NUM_CLASSES
}

/// Whether `c` is the smallest class whose objects hold `size` bytes.
pub open spec fn smallest_class(size: int, c: int) -> bool {
    &&& is_class(c)
    &&& class_size(c) >= size
    &&& forall|j: int| 1 <= j < c ==> #[trigger] class_size(j) < size
}

/// Class sizes ascend strictly, from 8 bytes up to the small maximum, and every
/// one is a multiple of the minimum alignment.
pub proof fn lemma_class_sizes()
    ensures
        forall|i: int, j: int|
            0 <= i < j < NUM_CLASSES ==> #[trigger] class_size(i) < #[trigger] class_size(j),
        forall|i: int| is_class(i) ==> #[trigger] class_size(i) % 8 == 0,
        forall|i: int| is_class(i) ==> 8 <= #[trigger] class_size(i) <= MAX_SMALL,
        class_size(1) == 8,
        class_size(NUM_CLASSES - 1) == MAX_SMALL,
{
}

/// A class wastes less than half of its object on the smallest request it
/// serves.
pub proof fn lemma_waste_bounded(c: int)
    requires
        2 <= c < NUM_CLASSES,
    ensures
        2 * (class_size(c) - (class_size(c - 1) + 1)) < class_size(c),
{
}

/// The smallest class that fits a size holds it, and no class below it does; every
/// class that holds the size is at or above it.
pub proof fn lemma_smallest_fits(size: int, c: int)
    requires
        smallest_class(size, c),
    ensures
        1 <= c < 49,
        CLASS_SIZES@[c] >= size,
        forall|j: int| 1 <= j < 49 && #[trigger] CLASS_SIZES@[j] >= size ==> c <= j,
{
    assert forall|j: int| 1 <= j < 49 && #[trigger] CLASS_SIZES@[j] >= size implies c <= j by {
        if j < c {
            assert(class_size(j) < size);
        }
    }
}

/// The smallest class that is aligned as asked holds the bytes at a multiple of the
/// alignment, and so does no class below it.
pub proof fn lemma_aligned_fits(need: int, align: int, c: int)
    requires
        smallest_aligned(need, align, c),
    ensures
        1 <= c < 49,
        CLASS_SIZES@[c] >= need,
        CLASS_SIZES@[c] as int % align == 0,
        forall|j: int|
            1 <= j < 49 && #[trigger] CLASS_SIZES@[j] >= need && CLASS_SIZES@[j] as int % align == 0
                ==> c <= j,
{
    assert forall|j: int|
        1 <= j < 49 && #[trigger] CLASS_SIZES@[j] >= need && CLASS_SIZES@[j] as int % align
            == 0 implies c <= j by {
        if j < c {
            assert(class_size(j) >= need);
        }
    }
}

/// Every size up to the small maximum has a class, and none above it.
pub proof fn lemma_every_small_size(size: int)
    ensures
        (exists|c: int| smallest_class(size, c)) <==> size <= 262144,
{
    lemma_class_sizes();
    if size <= 262144 {
        let c = lemma_find_class(size, 48);
        assert(smallest_class(size, c));
    } else if exists|c: int| smallest_class(size, c) {
        let c = choose|c: int| smallest_class(size, c);
        assert(class_size(c) <= MAX_SMALL);
    }
}

proof fn lemma_find_class(size: int, top: int) -> (c: int)
    requires
        1 <= top < 49,
        class_size(top) >= size,
    ensures
        smallest_class(size, c),
    decreases top,
{
    lemma_class_sizes();
    if top > 1 && class_size(top - 1) >= size {
        lemma_find_class(size, top - 1)
    } else {
        assert forall|j: int| 1 <= j < top implies #[trigger] class_size(j) < size by {
            if j < top - 1 {
                assert(class_size(j) < class_size(top - 1));
            }
        }
        top
    }
}

/// The classes are spaced so that an object is at most half again as large as the
/// one of the class before, and at most a quarter larger from 128 bytes up to
/// 32 KiB.
pub proof fn lemma_spacing(c: int)
    requires
        3 <= c < 49,
    ensures
        CLASS_SIZES@[c - 1] < CLASS_SIZES@[c],
        2 * CLASS_SIZES@[c] <= 3 * CLASS_SIZES@[c - 1],
        128 <= CLASS_SIZES@[c - 1] && CLASS_SIZES@[c] <= 32768 ==> 4 * CLASS_SIZES@[c] <= 5
            * CLASS_SIZES@[c - 1],
{
}

/// The sizes: steps of eight up to 32 bytes and of sixteen up to 128; from there on four
/// steps to every doubling up to 32 KiB, and two from there to the largest.
pub proof fn lemma_sizes(c: int)
    requires
        1 <= c < 49,
    ensures
        c <= 4 ==> CLASS_SIZES@[c] == 8 * c,
        4 <= c <= 10 ==> CLASS_SIZES@[c] == 16 * (c - 2),
        10 <= c <= 14 ==> CLASS_SIZES@[c] == 32 * (c - 6),
        10 <= c <= 38 ==> CLASS_SIZES@[c + 4] == 2 * CLASS_SIZES@[c],
        42 <= c <= 44 ==> CLASS_SIZES@[c] == 16384 * (c - 40),
        42 <= c <= 46 ==> CLASS_SIZES@[c + 2] == 2 * CLASS_SIZES@[c],
        CLASS_SIZES@[c] <= 262144,
        c == 48 ==> CLASS_SIZES@[c] == 262144,
{
}

/// There is exactly one smallest class for a size.
pub proof fn lemma_smallest_unique(size: int, a: int, b: int)
    requires
        smallest_class(size, a),
        smallest_class(size, b),
    ensures
        a == b,
{
    if a < b {
        assert(class_size(a) < size);
    }
    if b < a {
        assert(class_size(b) < size);
    }
}

/// The class for a request of `size` bytes (an empty request counts as one
/// byte), or `None` if it exceeds `MAX_SMALL`.
pub fn class_for(size: usize) -> (r: Option<usize>)
    ensures
        r.is_some() <==> size <= MAX_SMALL,
        r matches Some(c) ==> smallest_class(
            if size == 0 {
                1
            } else {
                size as int
            },
            c as int,
        ),
        r.is_some() <==> size <= 262144,
        r matches Some(c) ==> 1 <= c < 49 && CLASS_SIZES@[c as int] >= size,
        r matches Some(c) ==> forall|j: int|
            1 <= j < c ==> #[trigger] CLASS_SIZES@[j] < size || (size == 0 && CLASS_SIZES@[j] < 1),
{
    if size > MAX_SMALL {
        return None;
    }
    let want: usize = if size == 0 {
        1
    } else {
        size
    };
    let mut idx: usize = 1;
    while idx < NUM_CLASSES
        invariant
            1 <= idx <= NUM_CLASSES,
            want <= MAX_SMALL,
            want == if size == 0 {
                1
            } else {
                size
            },
            forall|j: int| 1 <= j < idx ==> #[trigger] class_size(j) < want,
        decreases NUM_CLASSES - idx,
    {
        if CLASS_SIZES[idx] >= want {
            assert(class_size(idx as int) >= want);
            assert forall|j: int| 1 <= j < idx implies #[trigger] CLASS_SIZES@[j] < want by {
                assert(class_size(j) < want);
            }
            return Some(idx);
        }
        assert(class_size(idx as int) < want);
        idx = idx + 1;
    }
    proof {
        lemma_class_sizes();
        assert(class_size(NUM_CLASSES - 1) < want);
    }
    None
}

/// Number of entries in the size-to-class table: one per 8-byte step up to
/// `MAX_SMALL`, plus the zero slot.
pub const LOOKUP_LEN: usize = 32769;

/// The size-to-class table: entry `i` is the class for a request of `8 * i`
/// bytes.
pub struct Lookup {
    table: SysBoxSlice<u32>,
}

impl Lookup {
    /// The table has every entry, and each names the smallest class that fits.
    pub closed spec fn wf(&self) -> bool {
        &&& self.table@.len() == LOOKUP_LEN
        &&& forall|i: int|
            0 <= i < LOOKUP_LEN ==> smallest_class(
                if i == 0 {
                    1
                } else {
                    8 * i
                },
                #[trigger] self.table@[i] as int,
            )
    }

    /// Compute the table, walking sizes and classes upward together.
    pub fn build() -> (lookup: Lookup)
        ensures
            lookup.wf(),
    {
        let mut table = SysBoxSlice::<u32>::filled(LOOKUP_LEN, 0);
        let mut i: usize = 0;
        let mut class: usize = 1;
        proof {
            lemma_class_sizes();
        }
        while i < LOOKUP_LEN
            invariant
                i <= LOOKUP_LEN,
                1 <= class < NUM_CLASSES,
                table@.len() == LOOKUP_LEN,
                forall|j: int| 1 <= j < class ==> #[trigger] class_size(j) < (if i == 0 {
                    1
                } else {
                    8 * i
                }),
                forall|k: int|
                    0 <= k < i ==> smallest_class(
                        if k == 0 {
                            1
                        } else {
                            8 * k
                        },
                        #[trigger] table@[k] as int,
                    ),
            decreases LOOKUP_LEN - i,
        {
            let size: usize = if i == 0 {
                1
            } else {
                i * 8
            };
            while class < NUM_CLASSES - 1 && CLASS_SIZES[class] < size
                invariant
                    1 <= class < NUM_CLASSES,
                    forall|j: int| 1 <= j < class ==> #[trigger] class_size(j) < size,
                decreases NUM_CLASSES - class,
            {
                assert(class_size(class as int) < size);
                class = class + 1;
            }
            proof {
                lemma_class_sizes();
                assert(class_size(class as int) >= size);
            }
            table.put(i, class as u32);
            i = i + 1;
        }
        Lookup { table }
    }

    /// The class for `size` bytes in one indexed load; `None` for an empty
    /// request or one above `MAX_SMALL`.
    pub fn class_of(&self, size: usize) -> (r: Option<usize>)
        requires
            self.wf(),
        ensures
            r.is_some() <==> 0 < size <= MAX_SMALL,
            r matches Some(c) ==> smallest_class(size as int, c as int),
            r.is_some() <==> 0 < size <= 262144,
            r matches Some(c) ==> 1 <= c < 49 && CLASS_SIZES@[c as int] >= size,
            r matches Some(c) ==> forall|j: int| 1 <= j < c ==> #[trigger] CLASS_SIZES@[j] < size,
    {
        if size == 0 || size > MAX_SMALL {
            return None;
        }
        let idx: usize = (size + (MIN_ALIGN - 1)) / 8;
        let c: usize = self.table.at(idx) as usize;
        proof {
            lemma_class_sizes();
            assert(smallest_class(8 * idx as int, self.table@[idx as int] as int));
            assert forall|j: int| 1 <= j < c implies #[trigger] class_size(j) < size by {
                // Sizes are multiples of eight, so one below the rounded-up size
                // is below the size itself.
                assert(class_size(j) < 8 * idx);
                assert(class_size(j) % 8 == 0);
            }
            assert forall|j: int| 1 <= j < c implies #[trigger] CLASS_SIZES@[j] < size by {
                assert(class_size(j) < size);
            }
        }
        Some(c)
    }
}

/// The class for `size` bytes; `None` for an empty request or one above
/// `MAX_SMALL` (the large path).
pub fn class_of(size: usize) -> (r: Option<usize>)
    ensures
        r.is_some() <==> 0 < size <= MAX_SMALL,
        r matches Some(c) ==> smallest_class(size as int, c as int),
        r.is_some() <==> 0 < size <= 262144,
        r matches Some(c) ==> 1 <= c < 49 && CLASS_SIZES@[c as int] >= size,
        r matches Some(c) ==> forall|j: int| 1 <= j < c ==> #[trigger] CLASS_SIZES@[j] < size,
{
    if size == 0 {
        None
    } else {
        class_for(size)
    }
}

/// The object size of a class id.
pub fn size_of_class(class: usize) -> (s: usize)
    requires
        class < NUM_CLASSES,
    ensures
        s == class_size(class as int),
        s == CLASS_SIZES@[class as int],
{
    CLASS_SIZES[class]
}

/// Whether `c` is the smallest class that holds `need` bytes and whose object
/// size is a multiple of `align`.
pub open spec fn smallest_aligned(need: int, align: int, c: int) -> bool {
    &&& is_class(c)
    &&& class_size(c) >= need
    &&& class_size(c) % align == 0
    &&& forall|j: int|
        1 <= j < c && #[trigger] class_size(j) >= need ==> class_size(j) % align != 0
}

/// Smallest class whose object size is at least `need` and a multiple of
/// `align`, for over-aligned requests. `None` if no small class fits.
pub fn aligned_class(need: usize, align: usize) -> (r: Option<usize>)
    requires
        align > 0,
    ensures
        r.is_some() <==> 0 < need && exists|c: int| smallest_aligned(need as int, align as int, c),
        r matches Some(c) ==> smallest_aligned(need as int, align as int, c as int),
        r matches Some(c) ==> 1 <= c < 49 && CLASS_SIZES@[c as int] >= need && CLASS_SIZES@[c as int]
            % align == 0,
        r matches Some(c) ==> forall|j: int|
            1 <= j < 49 && #[trigger] CLASS_SIZES@[j] >= need && CLASS_SIZES@[j] % align == 0 ==> c
                <= j,
        r is None && need > 0 ==> forall|j: int|
            1 <= j < 49 && #[trigger] CLASS_SIZES@[j] >= need ==> CLASS_SIZES@[j] % align != 0,
{
    proof {
        lemma_class_sizes();
    }
    let mut class: usize = match class_of(need) {
        Some(c) => c,
        None => {
            return None;
        },
    };
    while size_of_class(class) % align != 0
        invariant
            1 <= class < NUM_CLASSES,
            align > 0,
            need > 0,
            class_size(class as int) >= need,
            forall|j: int|
                1 <= j < class && #[trigger] class_size(j) >= need ==> class_size(j) % (align as int) != 0,
        decreases NUM_CLASSES - class,
    {
        let ghost before = class;
        class = class + 1;
        proof {
            lemma_class_sizes();
        }
        if class >= NUM_CLASSES {
            assert forall|c: int| !smallest_aligned(need as int, align as int, c) by {
                if is_class(c) && class_size(c) >= need {
                    assert(class_size(c) % (align as int) != 0);
                }
            }
            assert forall|j: int|
                1 <= j < 49 && #[trigger] CLASS_SIZES@[j] >= need implies CLASS_SIZES@[j] % align
                != 0 by {
                assert(class_size(j) >= need);
            }
            return None;
        }
        assert(class_size(before as int) < class_size(class as int));
    }
    assert(smallest_aligned(need as int, align as int, class as int));
    proof {
        lemma_aligned_fits(need as int, align as int, class as int);
    }
    Some(class)
}

} // verus!
