//! The OS-memory reservation: an up-front mapping that is populated and locked,
//! so that no later page fault or reclaim can stall a path that touches it.
//!
//! Mapping, advising and locking are system calls. What to ask for, and what a
//! refusal means, is decided here: [`Reservation::reserve_with`] resolves the
//! options to a mapping request, and each answer of the kernel leads to the next
//! request, to an error, or to the finished [`Reservation`].

use vstd::prelude::*;
use vstd::string::StringExecFns;
use vstd::arithmetic::power2::pow2;
use crate::bits::{exact_log2, is_pow2};
use crate::sys::diag::{append_dec, dec_text};
use crate::sys::text::{
    chars_of, find_key, find_word, is_space, lemma_next_word, next_word, number, parse_usize,
    value_of_key,
};

verus! {

/// Errors from the one-shot reservation. All are init-time and fatal by design.
/// OS errors are carried as their error number.
#[derive(Clone, Copy, Debug)]
pub enum ReserveError {
    /// Mapping failed (address space or overcommit limits).
    Mmap(i32),
    /// Locking failed, although it was required.
    Mlock { source: i32, limit: u64, requested: usize },
    /// The lock limit says that locking cannot succeed, although it was required.
    RlimitTooLow { limit: u64, requested: usize },
    /// The options were invalid.
    InvalidConfig(&'static str),
}

impl ReserveError {
    /// The error in words, `os` being the system's text for the error number.
    pub open spec fn text(&self, os: Seq<char>) -> Seq<char> {
        match *self {
            ReserveError::Mmap(_) => "toccata reservation mmap failed: "@ + os,
            ReserveError::Mlock { source: _, limit, requested } => {
                "toccata reservation mlock2 failed: "@ + os + ". Requested "@ + dec_text(
                    requested as nat,
                ) + " bytes but RLIMIT_MEMLOCK is "@ + dec_text(limit as nat)
                    + ". Raise it (ulimit -l / LimitMEMLOCK=infinity in the unit / a higher container memlock limit), or lower toccata's configured budget."@
            },
            ReserveError::RlimitTooLow { limit, requested } => {
                "toccata cannot lock "@ + dec_text(requested as nat)
                    + " bytes: RLIMIT_MEMLOCK is only "@ + dec_text(limit as nat)
                    + ". Raise RLIMIT_MEMLOCK (ulimit -l unlimited / LimitMEMLOCK=infinity) or lower the budget."@
            },
            ReserveError::InvalidConfig(why) => "toccata reservation config invalid: "@ + why@,
        }
    }

    /// The error in words.
    pub fn message(&self, os: &str) -> (m: String)
        ensures
            m@ == self.text(os@),
            *self is Mmap ==> m@ == "toccata reservation mmap failed: "@ + os@,
            *self matches ReserveError::Mlock { source: _, limit, requested } ==> m@
                == "toccata reservation mlock2 failed: "@ + os@ + ". Requested "@ + dec_text(
                requested as nat,
            ) + " bytes but RLIMIT_MEMLOCK is "@ + dec_text(limit as nat)
                + ". Raise it (ulimit -l / LimitMEMLOCK=infinity in the unit / a higher container memlock limit), or lower toccata's configured budget."@,
            *self matches ReserveError::RlimitTooLow { limit, requested } ==> m@
                == "toccata cannot lock "@ + dec_text(requested as nat)
                + " bytes: RLIMIT_MEMLOCK is only "@ + dec_text(limit as nat)
                + ". Raise RLIMIT_MEMLOCK (ulimit -l unlimited / LimitMEMLOCK=infinity) or lower the budget."@,
            *self matches ReserveError::InvalidConfig(why) ==> m@
                == "toccata reservation config invalid: "@ + why@,
    {
        match *self {
            ReserveError::Mmap(_) => {
                let mut m = String::from_str("toccata reservation mmap failed: ");
                m.append(os);
                m
            },
            ReserveError::Mlock { source: _, limit, requested } => {
                let mut m = String::from_str("toccata reservation mlock2 failed: ");
                m.append(os);
                m.append(". Requested ");
                append_dec(&mut m, requested as u64);
                m.append(" bytes but RLIMIT_MEMLOCK is ");
                append_dec(&mut m, limit);
                m.append(
                    ". Raise it (ulimit -l / LimitMEMLOCK=infinity in the unit / a higher container memlock limit), or lower toccata's configured budget.",
                );
                m
            },
            ReserveError::RlimitTooLow { limit, requested } => {
                let mut m = String::from_str("toccata cannot lock ");
                append_dec(&mut m, requested as u64);
                m.append(" bytes: RLIMIT_MEMLOCK is only ");
                append_dec(&mut m, limit);
                m.append(
                    ". Raise RLIMIT_MEMLOCK (ulimit -l unlimited / LimitMEMLOCK=infinity) or lower the budget.",
                );
                m
            },
            ReserveError::InvalidConfig(why) => {
                let mut m = String::from_str("toccata reservation config invalid: ");
                m.append(why);
                m
            },
        }
    }
}

/// A reserved, populated, (best-effort) locked region of memory.
///
/// The effective state, that is whether the lock took and the huge-page size
/// obtained, is recorded when the region is built.
#[derive(Debug)]
pub struct Reservation {
    base: usize,
    len: usize,
    locked: bool,
    huge_page_size: Option<usize>,
}

impl Reservation {
    pub closed spec fn start(&self) -> int {
        self.base as int
    }

    pub closed spec fn size(&self) -> int {
        self.len as int
    }

    pub closed spec fn locked(&self) -> bool {
        self.locked
    }

    pub closed spec fn huge(&self) -> Option<usize> {
        self.huge_page_size
    }

    /// A mapping: not at address zero, page-aligned, and inside the address
    /// space.
    pub open spec fn wf(&self) -> bool {
        &&& 0 < self.start()
        &&& self.start() % 4096 == 0
        &&& 0 < self.size()
        &&& self.start() + self.size() <= usize::MAX
    }

    /// The region of a mapping that exists: `len` bytes at `base`.
    pub fn of_mapping(base: usize, len: usize, locked: bool, huge_page_size: Option<usize>) -> (r:
        Reservation)
        ensures
            r.start() == base,
            r.size() == len,
            r.locked() == locked,
            r.huge() == huge_page_size,
    {
        Reservation { base, len, locked, huge_page_size }
    }

    pub fn base(&self) -> (b: usize)
        ensures
            b == self.start(),
    {
        self.base
    }

    pub fn len(&self) -> (n: usize)
        ensures
            n == self.size(),
    {
        self.len
    }

    pub fn is_empty(&self) -> (b: bool)
        ensures
            b == (self.size() == 0),
    {
        self.len == 0
    }

    /// Whether the memory lock took.
    pub fn is_locked(&self) -> (b: bool)
        ensures
            b == self.locked(),
    {
        self.locked
    }

    /// The huge-page size mapped, or `None` for base pages.
    pub fn huge_page_size(&self) -> (n: Option<usize>)
        ensures
            n == self.huge(),
    {
        self.huge_page_size
    }

    /// The first address of the region.
    pub fn as_ptr(&self) -> (b: usize)
        ensures
            b == self.start(),
    {
        self.base
    }
}

/// A capability that can be demanded, attempted, or skipped. A failed attempt
/// falls back and is recorded on the [`Reservation`]; a failed demand is fatal.
#[derive(Clone, Copy, Debug, PartialEq, Eq)]
pub enum Require<T> {
    /// Do not attempt it.
    Off,
    /// Try; on failure, fall back and record what happened.
    BestEffort(T),
    /// Must succeed.
    Required(T),
}

impl<T> Require<T> {
    pub open spec fn payload(&self) -> Option<T> {
        match *self {
            Require::Off => None,
            Require::BestEffort(t) => Some(t),
            Require::Required(t) => Some(t),
        }
    }

    /// The payload, if the capability is wanted at all.
    pub fn value(&self) -> (r: Option<&T>)
        ensures
            match r {
                Some(t) => self.payload() == Some(*t),
                None => self.payload() is None,
            },
            r is None <==> *self is Off,
            *self matches Require::BestEffort(t) ==> r == Some(&t),
            *self matches Require::Required(t) ==> r == Some(&t),
    {
        match self {
            Require::Off => None,
            Require::BestEffort(t) => Some(t),
            Require::Required(t) => Some(t),
        }
    }

    fn is_required(&self) -> (b: bool)
        ensures
            b == (*self is Required),
    {
        match self {
            Require::Required(_) => true,
            _ => false,
        }
    }

    fn is_off(&self) -> (b: bool)
        ensures
            b == (*self is Off),
    {
        match self {
            Require::Off => true,
            _ => false,
        }
    }
}

impl Require<()> {
    /// Demand the capability.
    pub fn on() -> (r: Require<()>)
        ensures
            r == Require::Required(()),
    {
        Require::Required(())
    }

    /// Attempt the capability.
    pub fn attempt() -> (r: Require<()>)
        ensures
            r == Require::BestEffort(()),
    {
        Require::BestEffort(())
    }

    /// Skip the capability.
    pub fn off() -> (r: Require<()>)
        ensures
            r == Require::<()>::Off,
    {
        Require::Off
    }
}

/// How the pages are backed.
#[derive(Clone, Copy, Debug)]
pub enum Backing {
    /// Private anonymous pages.
    Anonymous,
}

/// A huge-page request.
#[derive(Clone, Copy, Debug, PartialEq, Eq)]
pub enum HugePages {
    /// The system's default huge-page size.
    Default,
    /// A size in bytes, which must be a power of two.
    Size(usize),
}

/// Options for a [`Reservation`].
#[derive(Clone, Copy, Debug)]
pub struct ReserveOpts {
    /// Bytes to reserve, rounded up to whole huge pages where those are used.
    pub len: usize,
    pub backing: Backing,
    /// Lock the region in memory.
    pub lock: Require<()>,
    pub huge_pages: Require<HugePages>,
    /// Fault every page in at once.
    pub populate: bool,
    /// Keep the region out of core dumps.
    pub dontdump: bool,
}

impl ReserveOpts {
    /// `len` bytes, anonymous, populated, locked (required), kept out of core
    /// dumps, without huge pages.
    pub fn new(len: usize) -> (o: ReserveOpts)
        ensures
            o == (ReserveOpts {
                len,
                backing: Backing::Anonymous,
                lock: Require::Required(()),
                huge_pages: Require::Off,
                populate: true,
                dontdump: true,
            }),
    {
        ReserveOpts {
            len,
            backing: Backing::Anonymous,
            lock: Require::on(),
            huge_pages: Require::Off,
            populate: true,
            dontdump: true,
        }
    }

    /// Demand huge pages.
    pub fn huge_pages(self, h: HugePages) -> (o: ReserveOpts)
        ensures
            o == (ReserveOpts { huge_pages: Require::Required(h), ..self }),
    {
        ReserveOpts { huge_pages: Require::Required(h), ..self }
    }

    /// Attempt huge pages.
    pub fn huge_pages_best_effort(self, h: HugePages) -> (o: ReserveOpts)
        ensures
            o == (ReserveOpts { huge_pages: Require::BestEffort(h), ..self }),
    {
        ReserveOpts { huge_pages: Require::BestEffort(h), ..self }
    }

    pub fn lock(self, mode: Require<()>) -> (o: ReserveOpts)
        ensures
            o == (ReserveOpts { lock: mode, ..self }),
    {
        ReserveOpts { lock: mode, ..self }
    }

    pub fn populate(self, yes: bool) -> (o: ReserveOpts)
        ensures
            o == (ReserveOpts { populate: yes, ..self }),
    {
        ReserveOpts { populate: yes, ..self }
    }

    pub fn dontdump(self, yes: bool) -> (o: ReserveOpts)
        ensures
            o == (ReserveOpts { dontdump: yes, ..self }),
    {
        ReserveOpts { dontdump: yes, ..self }
    }

    /// Whether the options can be met where memory is neither mapped nor locked, but
    /// taken zeroed from the system's allocator: huge pages cannot be demanded there.
    /// Such a region is not locked and has base pages.
    pub fn check_unmapped(&self) -> (r: Result<(), ReserveError>)
        ensures
            r == (if self.huge_pages is Required {
                Err::<(), ReserveError>(
                    ReserveError::InvalidConfig("huge pages are only supported on Linux"),
                )
            } else {
                Ok(())
            }),
            r is Ok <==> !(self.huge_pages is Required),
    {
        if self.huge_pages.is_required() {
            return Err(ReserveError::InvalidConfig("huge pages are only supported on Linux"));
        }
        Ok(())
    }

    /// The huge-page size that the options resolve to on a system with this
    /// default size, or why there is none.
    pub open spec fn resolved(&self, default_size: Option<usize>) -> Option<Result<usize, &'static str>> {
        match self.huge_pages.payload() {
            None => None,
            Some(HugePages::Size(n)) => if is_pow2(n as int) {
                Some(Ok(n))
            } else {
                Some(Err("huge page size must be a power of two"))
            },
            Some(HugePages::Default) => match default_size {
                Some(n) => Some(Ok(n)),
                None => Some(Err("could not determine the default huge page size")),
            },
        }
    }

    /// The huge-page size to map with.
    pub open spec fn page_size(&self, default_size: Option<usize>) -> Option<usize> {
        match self.resolved(default_size) {
            Some(Ok(n)) => Some(n),
            _ => None,
        }
    }

    /// The length to map: whole huge pages where those are used.
    pub open spec fn map_len(&self, default_size: Option<usize>) -> int {
        match self.page_size(default_size) {
            Some(n) => (self.len + n - 1) / (n as int) * n,
            None => self.len as int,
        }
    }
}

/// Resolve a huge-page request to a page size.
fn resolve_huge_pages(h: HugePages, default_size: Option<usize>) -> (r: Result<usize, &'static str>)
    ensures
        forall|o: ReserveOpts|
            o.huge_pages.payload() == Some(h) ==> #[trigger] o.resolved(default_size) == Some(r),
{
    match h {
        HugePages::Size(n) => match exact_log2(n) {
            Some(_) => Ok(n),
            None => Err("huge page size must be a power of two"),
        },
        HugePages::Default => match default_size {
            Some(n) => Ok(n),
            None => Err("could not determine the default huge page size"),
        },
    }
}

/// `MAP_HUGETLB`.
pub const MAP_HUGETLB: u32 = 0x4_0000;

/// Extra flags of a mapping with huge pages of `2^shift` bytes: the huge-page
/// flag, and the exponent in the six bits from bit 26 on. A size that is no power
/// of two has no such bits.
pub fn huge_page_flags(size: usize) -> (flags: u32)
    ensures
        forall|shift: nat|
            size == #[trigger] pow2(shift) ==> flags == MAP_HUGETLB + shift * 0x400_0000,
        !is_pow2(size as int) ==> flags == MAP_HUGETLB,
        forall|shift: nat|
            size == #[trigger] pow2(shift) ==> flags as int / 0x400_0000 == shift,
        flags as int % 0x400_0000 == 0x4_0000,
{
    match exact_log2(size) {
        Some(s) => {
            proof {
                assert forall|shift: nat| size == #[trigger] pow2(shift) implies shift == s by {
                    if shift < s {
                        vstd::arithmetic::power2::lemma_pow2_strictly_increases(shift, s as nat);
                    } else if s < shift {
                        vstd::arithmetic::power2::lemma_pow2_strictly_increases(s as nat, shift);
                    }
                }
            }
            MAP_HUGETLB + s * 0x400_0000
        },
        None => MAP_HUGETLB,
    }
}

/// The size on a `Hugepagesize:` line: a number, and a unit that is kB unless it
/// is `MB`.
pub open spec fn huge_page_line(rest: Seq<char>) -> Option<usize> {
    match next_word(rest, 0) {
        None => None,
        Some((word, at)) => match number(word) {
            None => None,
            Some(n) => {
                let unit: int = match next_word(rest, at) {
                    Some((u, _)) => if u == "MB"@ {
                        1048576int
                    } else {
                        1024int
                    },
                    None => 1024int,
                };
                if 0 < n * unit <= usize::MAX {
                    Some((n * unit) as usize)
                } else {
                    None
                }
            },
        },
    }
}

/// On a line whose first word is a number and whose next word is `MB`, the size is that
/// many times 2^20 bytes; with any other word, or none, that many times 2^10; nothing
/// where the first word is no number, or the size is none.
pub proof fn lemma_huge_page_line(rest: Seq<char>, a: int, b: int, c: int, d: int)
    requires
        0 <= a < b <= c <= d <= rest.len(),
        forall|j: int| 0 <= j < a ==> is_space(#[trigger] rest[j]),
        forall|j: int| a <= j < b ==> !is_space(#[trigger] rest[j]),
        b == rest.len() || is_space(rest[b]),
        forall|j: int| b <= j < c ==> is_space(#[trigger] rest[j]),
        forall|j: int| c <= j < d ==> !is_space(#[trigger] rest[j]),
        d == rest.len() || is_space(rest[d]),
        c == d ==> d == rest.len(),
    ensures
        number(rest.subrange(a, b)) is None ==> huge_page_line(rest) is None,
        number(rest.subrange(a, b)) matches Some(n) ==> {
            let mega = d == c + 2 && rest[c] == 'M' && rest[c + 1] == 'B';
            &&& mega && 0 < n * 1048576 <= usize::MAX ==> huge_page_line(rest) == Some(
                (n * 1048576) as usize,
            )
            &&& !mega && 0 < n * 1024 <= usize::MAX ==> huge_page_line(rest) == Some(
                (n * 1024) as usize,
            )
            &&& mega && n * 1048576 > usize::MAX ==> huge_page_line(rest) is None
            &&& !mega && n * 1024 > usize::MAX ==> huge_page_line(rest) is None
            &&& n == 0 ==> huge_page_line(rest) is None
        },
{
    lemma_next_word(rest, 0, a, b);
    lemma_next_word(rest, b, c, d);
    reveal_strlit("MB");
    if c < d {
        let w = rest.subrange(c, d);
        if d == c + 2 && rest[c] == 'M' && rest[c + 1] == 'B' {
            assert(w =~= "MB"@);
        } else if w == "MB"@ {
            assert(w.len() == 2);
            assert(rest[c] == w[0] && rest[c + 1] == w[1]);
        }
    }
}

/// The system's default huge-page size in bytes, out of the text of
/// `/proc/meminfo`.
pub fn default_huge_page_size(meminfo: &str) -> (r: Option<usize>)
    ensures
        r == (match value_of_key(meminfo@, "Hugepagesize:"@, 0) {
            Some(rest) => huge_page_line(rest),
            None => None,
        }),
{
    let text: Vec<char> = chars_of(meminfo);
    let key: Vec<char> = chars_of("Hugepagesize:");
    let (a, b) = match find_key(text.as_slice(), key.as_slice()) {
        Some(r) => r,
        None => {
            return None;
        },
    };
    let rest: &[char] = vstd::slice::slice_subrange(text.as_slice(), a, b);
    let (c, d) = match find_word(rest, 0) {
        Some(r) => r,
        None => {
            return None;
        },
    };
    let n: usize = match parse_usize(vstd::slice::slice_subrange(rest, c, d)) {
        Some(n) => n,
        None => {
            return None;
        },
    };
    let mut unit: usize = 1024;
    match find_word(rest, d) {
        Some((e, f)) => {
            proof {
                reveal_strlit("MB");
            }
            let ghost word = rest@.subrange(e as int, f as int);
            if f - e == 2 && rest[e] == 'M' && rest[e + 1] == 'B' {
                assert(word =~= "MB"@);
                unit = 1048576;
            } else {
                assert(word != "MB"@) by {
                    if word == "MB"@ {
                        assert(word.len() == 2);
                        assert(rest@[e as int] == word[0] && rest@[e + 1] == word[1]);
                    }
                }
            }
        },
        None => {},
    }
    match n.checked_mul(unit) {
        Some(size) => if size > 0 {
            Some(size)
        } else {
            None
        },
        None => None,
    }
}

/// A degradation that is reported, with the bytes concerned.
#[derive(Clone, Copy, Debug, PartialEq, Eq, Structural)]
pub enum Notice {
    /// The lock limit is below what was to be locked (best effort).
    LimitTooLow(usize),
    /// The mapping with huge pages failed (best effort).
    NoHugePages(usize),
    /// Locking failed (best effort).
    Unlocked(usize),
}

impl Notice {
    /// The text in front of the byte count.
    pub fn prefix(&self) -> (s: &'static str)
        ensures
            s@ == (match self {
                Notice::LimitTooLow(_) => "toccata: reservation lock requested (best-effort) but RLIMIT_MEMLOCK too low; proceeding UNLOCKED, never-stall forfeited [bytes="@,
                Notice::NoHugePages(_) => "toccata: huge pages requested (best-effort) but mmap failed; falling back to base pages [bytes="@,
                Notice::Unlocked(_) => "toccata: reservation mlock2 failed (best-effort); proceeding UNLOCKED, never-stall forfeited [bytes="@,
            }),
    {
        match self {
            Notice::LimitTooLow(_) => "toccata: reservation lock requested (best-effort) but RLIMIT_MEMLOCK too low; proceeding UNLOCKED, never-stall forfeited [bytes=",
            Notice::NoHugePages(_) => "toccata: huge pages requested (best-effort) but mmap failed; falling back to base pages [bytes=",
            Notice::Unlocked(_) => "toccata: reservation mlock2 failed (best-effort); proceeding UNLOCKED, never-stall forfeited [bytes=",
        }
    }

    /// The byte count.
    pub fn bytes(&self) -> (n: usize)
        ensures
            n == (match *self {
                Notice::LimitTooLow(n) => n,
                Notice::NoHugePages(n) => n,
                Notice::Unlocked(n) => n,
            }),
    {
        match *self {
            Notice::LimitTooLow(n) => n,
            Notice::NoHugePages(n) => n,
            Notice::Unlocked(n) => n,
        }
    }
}

/// A mapping to ask the kernel for.
#[derive(Clone, Copy, Debug)]
pub struct MapRequest {
    pub len: usize,
    /// Explicit huge pages of this size; base pages otherwise.
    pub huge: Option<usize>,
    /// The flags that ask for them. The system's default size is asked for
    /// without size bits.
    pub huge_flags: u32,
    /// Have the mapping call itself fault every page in.
    pub populate: bool,
}

/// A reservation that waits for the answer to its mapping request.
#[derive(Clone, Copy, Debug)]
pub struct Reserving {
    opts: ReserveOpts,
    limit: u64,
    len: usize,
    huge: Option<usize>,
}

/// What follows the answer to a mapping request.
#[derive(Clone, Copy, Debug)]
pub enum Mapped {
    /// Ask again, for base pages.
    Retry(Reserving, Notice),
    /// Give up.
    Failed(ReserveError),
    /// The region is there.
    Region(Settling),
}

/// A mapped region that waits to be advised and locked.
#[derive(Clone, Copy, Debug)]
pub struct Settling {
    opts: ReserveOpts,
    limit: u64,
    base: usize,
    len: usize,
    huge: Option<usize>,
}

/// What follows the answer to a lock request.
#[derive(Debug)]
pub enum Settled {
    /// The reservation is done.
    Ready(Reservation),
    /// The reservation is done, without the lock that was attempted.
    Degraded(Reservation, Notice),
    /// Unmap the region and give up.
    Failed(ReserveError),
}

impl Reserving {
    pub closed spec fn opts(&self) -> ReserveOpts {
        self.opts
    }

    pub closed spec fn limit(&self) -> u64 {
        self.limit
    }

    /// Bytes to be mapped.
    pub closed spec fn size(&self) -> int {
        self.len as int
    }

    /// Size of the huge pages to be mapped with.
    pub closed spec fn huge(&self) -> Option<usize> {
        self.huge
    }

    /// A reservation has been started with these options.
    pub open spec fn started(
        &self,
        opts: ReserveOpts,
        default_size: Option<usize>,
        limit: u64,
    ) -> bool {
        &&& self.opts() == opts
        &&& self.limit() == limit
        &&& self.size() == opts.map_len(default_size)
        &&& self.size() >= opts.len
        &&& self.huge() == opts.page_size(default_size)
    }

    /// What follows the kernel's answer to the mapping request.
    pub open spec fn leads_to(&self, answer: Result<usize, i32>, r: Mapped) -> bool {
        match answer {
            Ok(base) => r matches Mapped::Region(s) && {
                &&& s.opts() == self.opts()
                &&& s.limit() == self.limit()
                &&& s.start() == base
                &&& s.size() == self.size()
                &&& s.huge() == self.huge()
            },
            Err(code) => if self.huge() is Some && self.opts().huge_pages !is Required {
                r matches Mapped::Retry(again, n) && {
                    &&& again.opts() == self.opts()
                    &&& again.limit() == self.limit()
                    &&& again.size() == self.opts().len
                    &&& again.huge() is None
                    &&& n == Notice::NoHugePages(self.opts().len)
                }
            } else {
                r == Mapped::Failed(ReserveError::Mmap(code))
            },
        }
    }

    /// The mapping to ask for. With explicit huge pages the call faults the pages
    /// in; with base pages that is left to the advice and the lock that follow,
    /// so that transparent huge pages can be had.
    pub fn request(&self) -> (m: MapRequest)
        ensures
            m.len == self.size(),
            m.huge == self.huge(),
            match (self.huge(), self.opts().huge_pages.payload()) {
                (Some(_), Some(HugePages::Size(n))) => forall|shift: nat|
                    n == #[trigger] pow2(shift) ==> m.huge_flags == MAP_HUGETLB + shift
                        * 0x400_0000,
                (Some(_), _) => m.huge_flags == MAP_HUGETLB,
                (None, _) => m.huge_flags == 0,
            },
            m.populate == (self.opts().populate && self.huge() is Some),
    {
        let huge_flags: u32 = match (self.huge, self.opts.huge_pages.value()) {
            (Some(_), Some(HugePages::Size(n))) => huge_page_flags(*n),
            (Some(_), _) => MAP_HUGETLB,
            (None, _) => 0,
        };
        MapRequest {
            len: self.len,
            huge: self.huge,
            huge_flags,
            populate: self.opts.populate && self.huge.is_some(),
        }
    }

    /// The kernel's answer: an address, or an error number. A failed attempt at
    /// huge pages is repeated with base pages at the length that was asked for.
    pub fn mapped(self, answer: Result<usize, i32>) -> (r: Mapped)
        ensures
            self.leads_to(answer, r),
            answer matches Ok(base) ==> r matches Mapped::Region(s) && s.start() == base && s.size()
                == self.size() && s.huge() == self.huge() && s.opts() == self.opts() && s.limit()
                == self.limit(),
            r matches Mapped::Retry(again, n) ==> answer is Err && again.size() == self.opts().len
                && again.huge() is None && again.opts() == self.opts() && again.limit()
                == self.limit() && n == Notice::NoHugePages(self.opts().len),
            r is Retry <==> answer is Err && self.huge() is Some && !(self.opts().huge_pages is Required),
            r matches Mapped::Failed(e) ==> answer matches Err(code) && e == ReserveError::Mmap(code),
    {
        match answer {
            Ok(base) => Mapped::Region(
                Settling {
                    opts: self.opts,
                    limit: self.limit,
                    base,
                    len: self.len,
                    huge: self.huge,
                },
            ),
            Err(code) => {
                if self.huge.is_some() && !self.opts.huge_pages.is_required() {
                    let again = Reserving { len: self.opts.len, huge: None, ..self };
                    return Mapped::Retry(again, Notice::NoHugePages(self.opts.len));
                }
                Mapped::Failed(ReserveError::Mmap(code))
            },
        }
    }
}

impl Settling {
    pub closed spec fn opts(&self) -> ReserveOpts {
        self.opts
    }

    pub closed spec fn limit(&self) -> u64 {
        self.limit
    }

    pub closed spec fn start(&self) -> int {
        self.base as int
    }

    pub closed spec fn size(&self) -> int {
        self.len as int
    }

    pub closed spec fn huge(&self) -> Option<usize> {
        self.huge
    }

    pub fn base(&self) -> (b: usize)
        ensures
            b == self.start(),
    {
        self.base
    }

    pub fn len(&self) -> (n: usize)
        ensures
            n == self.size(),
    {
        self.len
    }

    /// Whether to hint at transparent huge pages: wherever base pages were mapped.
    pub fn hint_transparent(&self) -> (b: bool)
        ensures
            b == self.huge() is None,
    {
        self.huge.is_none()
    }

    /// Whether to fault the pages in by advice: where neither the mapping nor a
    /// lock does.
    pub fn populate_by_advice(&self) -> (b: bool)
        ensures
            b == (self.huge() is None && self.opts().populate && self.opts().lock is Off),
    {
        self.huge.is_none() && self.opts.populate && self.opts.lock.is_off()
    }

    /// Whether to keep the region out of core dumps.
    pub fn keep_out_of_dumps(&self) -> (b: bool)
        ensures
            b == self.opts().dontdump,
    {
        self.opts.dontdump
    }

    /// Whether to lock the region.
    pub fn wants_lock(&self) -> (b: bool)
        ensures
            b == (self.opts().lock !is Off),
    {
        !self.opts.lock.is_off()
    }

    /// What follows the kernel's answer to the lock request; `None` where none was
    /// made.
    pub open spec fn ends_in(&self, answer: Option<Result<(), i32>>, r: Settled) -> bool {
        match answer {
            Some(Err(code)) => if self.opts().lock is Required {
                r matches Settled::Failed(e) && e == (ReserveError::Mlock {
                    source: code,
                    limit: self.limit(),
                    requested: self.size() as usize,
                })
            } else {
                r matches Settled::Degraded(res, n) && {
                    &&& res.start() == self.start()
                    &&& res.size() == self.size()
                    &&& res.huge() == self.huge()
                    &&& !res.locked()
                    &&& n == Notice::Unlocked(self.size() as usize)
                }
            },
            _ => r matches Settled::Ready(res) && {
                &&& res.start() == self.start()
                &&& res.size() == self.size()
                &&& res.huge() == self.huge()
                &&& res.locked() == (self.opts().lock !is Off)
            },
        }
    }

    /// The reservation, given the kernel's answer to the lock request; `None` if
    /// no lock was wanted and none requested.
    pub fn settled(self, answer: Option<Result<(), i32>>) -> (r: Settled)
        requires
            answer is Some <==> self.opts().lock !is Off,
        ensures
            self.ends_in(answer, r),
            r is Failed <==> (answer matches Some(Err(_)) && self.opts().lock is Required),
            r is Degraded <==> (answer matches Some(Err(_)) && !(self.opts().lock is Required)),
            r matches Settled::Ready(res) ==> res.start() == self.start() && res.size()
                == self.size() && res.huge() == self.huge() && (res.locked() <==> answer is Some),
            r matches Settled::Degraded(res, n) ==> res.start() == self.start() && res.size()
                == self.size() && res.huge() == self.huge() && !res.locked() && n
                == Notice::Unlocked(self.size() as usize),
            r matches Settled::Failed(e) ==> e matches ReserveError::Mlock { source, limit, requested }
                && answer == Some(Err::<(), i32>(source)) && limit == self.limit() && requested
                == self.size(),
    {
        match answer {
            None => Settled::Ready(Reservation::of_mapping(self.base, self.len, false, self.huge)),
            Some(Ok(_)) => Settled::Ready(
                Reservation::of_mapping(self.base, self.len, true, self.huge),
            ),
            Some(Err(code)) => {
                if self.opts.lock.is_required() {
                    return Settled::Failed(
                        ReserveError::Mlock {
                            source: code,
                            limit: self.limit,
                            requested: self.len,
                        },
                    );
                }
                Settled::Degraded(
                    Reservation::of_mapping(self.base, self.len, false, self.huge),
                    Notice::Unlocked(self.len),
                )
            },
        }
    }
}

impl ReserveOpts {
    /// Whether a lock that is wanted cannot succeed under this limit.
    pub open spec fn over_limit(&self, default_size: Option<usize>, limit: u64) -> bool {
        &&& self.lock !is Off
        &&& limit < self.map_len(default_size)
        &&& limit != u64::MAX
    }

    /// The error that the options lead to before anything is mapped.
    pub open spec fn refused(&self, default_size: Option<usize>, limit: u64) -> Option<ReserveError> {
        if self.huge_pages is Required && self.resolved(default_size) matches Some(Err(_)) {
            Some(ReserveError::InvalidConfig(self.resolved(default_size)->0->Err_0))
        } else if self.over_limit(default_size, limit) && self.lock is Required {
            Some(
                ReserveError::RlimitTooLow {
                    limit,
                    requested: self.map_len(default_size) as usize,
                },
            )
        } else {
            None
        }
    }
}

impl Reservation {
    /// Start a reservation of `len` bytes with the default options.
    pub fn reserve(len: usize, limit: u64) -> (r: Result<(Reserving, Option<Notice>), ReserveError>)
        requires
            len > 0,
        ensures
            if limit < len && limit != u64::MAX {
                r matches Err(e) && e == (ReserveError::RlimitTooLow { limit, requested: len })
            } else {
                r matches Ok((s, n)) && {
                    &&& n is None
                    &&& s.size() == len
                    &&& s.huge() is None
                    &&& s.limit() == limit
                    &&& s.opts() == (ReserveOpts {
                        len,
                        backing: Backing::Anonymous,
                        lock: Require::Required(()),
                        huge_pages: Require::Off,
                        populate: true,
                        dontdump: true,
                    })
                }
            },
    {
        Reservation::reserve_with(ReserveOpts::new(len), None, limit)
    }

    /// Start a reservation. `default_size` is the system's default huge-page size,
    /// `limit` its lock limit. Huge pages are resolved first, so that the limit is
    /// held against the length that is going to be mapped.
    pub fn reserve_with(opts: ReserveOpts, default_size: Option<usize>, limit: u64) -> (r: Result<
        (Reserving, Option<Notice>),
        ReserveError,
    >)
        requires
            opts.len > 0,
            default_size matches Some(n) ==> n > 0,
            opts.map_len(default_size) <= usize::MAX,
        ensures
            match opts.refused(default_size, limit) {
                Some(e) => r == Err::<(Reserving, Option<Notice>), ReserveError>(e),
                None => r matches Ok((s, n)) && {
                    &&& s.started(opts, default_size, limit)
                    &&& n == if opts.over_limit(default_size, limit) {
                        Some(Notice::LimitTooLow(opts.map_len(default_size) as usize))
                    } else {
                        None
                    }
                },
            },
            r matches Ok((s, n)) ==> {
                &&& s.opts() == opts
                &&& s.limit() == limit
                &&& s.size() >= opts.len
                &&& s.huge() is None ==> s.size() == opts.len
                &&& s.huge() matches Some(p) ==> p > 0 && s.size() % p as int == 0 && s.size() - p
                    < opts.len
                &&& opts.huge_pages is Off ==> s.huge() is None
                &&& forall|p: usize|
                    opts.huge_pages == Require::Required(HugePages::Size(p)) || opts.huge_pages
                        == Require::BestEffort(HugePages::Size(p)) ==> (s.huge() == Some(p)
                        <==> #[trigger] is_pow2(p as int)) && (s.huge() is Some ==> s.huge() == Some(
                        p,
                    ))
                &&& opts.huge_pages == Require::Required(HugePages::Default) || opts.huge_pages
                    == Require::BestEffort(HugePages::Default) ==> s.huge() == default_size
                &&& n is Some <==> opts.lock is BestEffort && limit < s.size() && limit != u64::MAX
                &&& n matches Some(x) ==> x == Notice::LimitTooLow(s.size() as usize)
                &&& opts.lock is Required ==> limit >= s.size() || limit == u64::MAX
            },
            r matches Err(e) ==> {
                ||| e matches ReserveError::InvalidConfig(why) && {
                    ||| opts.huge_pages == Require::Required(HugePages::Default) && default_size is None
                        && why@ == "could not determine the default huge page size"@
                    ||| exists|p: usize|
                        opts.huge_pages == Require::Required(HugePages::Size(p)) && !(
                        #[trigger] is_pow2(p as int)) && why@
                            == "huge page size must be a power of two"@
                }
                ||| e matches ReserveError::RlimitTooLow { limit: l, requested } && {
                    &&& l == limit
                    &&& opts.lock is Required
                    &&& limit < requested
                    &&& limit != u64::MAX
                    &&& requested >= opts.len
                    &&& opts.huge_pages is Off ==> requested == opts.len
                    &&& default_size is None && opts.huge_pages == Require::BestEffort(
                        HugePages::Default,
                    ) ==> requested == opts.len
                    &&& forall|p: usize|
                        (opts.huge_pages == Require::Required(HugePages::Size(p))
                            || opts.huge_pages == Require::BestEffort(HugePages::Size(p)))
                            && #[trigger] is_pow2(p as int) ==> requested as int % p as int == 0
                            && requested - p < opts.len
                    &&& default_size matches Some(p) ==> ((opts.huge_pages == Require::Required(
                        HugePages::Default,
                    ) || opts.huge_pages == Require::BestEffort(HugePages::Default)) ==> requested as int
                        % p as int == 0 && requested - p < opts.len)
                }
            },
    {
        proof {
            opts.lemma_map_len(default_size);
        }
        let mut len: usize = opts.len;
        let mut huge: Option<usize> = None;
        match opts.huge_pages.value() {
            None => {},
            Some(h) => match resolve_huge_pages(*h, default_size) {
                Ok(size) => {
                    proof {
                        if let HugePages::Size(n) = *h {
                            let k = choose|k: nat| n == #[trigger] pow2(k);
                            vstd::arithmetic::power2::lemma_pow2_pos(k);
                        }
                        lemma_round_up(opts.len as int, size as int);
                    }
                    let whole: usize = opts.len / size;
                    len = if opts.len % size == 0 {
                        whole * size
                    } else {
                        (whole + 1) * size
                    };
                    huge = Some(size);
                },
                Err(why) => {
                    if opts.huge_pages.is_required() {
                        return Err(ReserveError::InvalidConfig(why));
                    }
                },
            },
        }
        let mut notice: Option<Notice> = None;
        if !opts.lock.is_off() && (limit as u128) < (len as u128) && limit != u64::MAX {
            if opts.lock.is_required() {
                return Err(ReserveError::RlimitTooLow { limit, requested: len });
            }
            notice = Some(Notice::LimitTooLow(len));
        }
        Ok((Reserving { opts, limit, len, huge }, notice))
    }
}

proof fn lemma_round_up(len: int, size: int)
    requires
        len > 0,
        size > 0,
    ensures
        len % size == 0 ==> (len + size - 1) / size == len / size,
        len % size != 0 ==> (len + size - 1) / size == len / size + 1,
        len <= (len + size - 1) / size * size,
        0 <= len / size * size <= len,
        (len / size + 1) * size == len / size * size + size,
        len / size + 1 <= (len / size + 1) * size,
{
    let q = len / size;
    let r = len % size;
    vstd::arithmetic::div_mod::lemma_fundamental_div_mod(len, size);
    vstd::arithmetic::mul::lemma_mul_is_commutative(size, q);
    assert((q + 1) * size == q * size + size) by (nonlinear_arith);
    vstd::arithmetic::div_mod::lemma_div_pos_is_pos(len, size);
    assert(q + 1 <= (q + 1) * size) by (nonlinear_arith)
        requires
            q >= 0,
            size >= 1,
    ;
    if r == 0 {
        vstd::arithmetic::div_mod::lemma_fundamental_div_mod_converse(
            len + size - 1,
            size,
            q,
            size - 1,
        );
    } else {
        vstd::arithmetic::div_mod::lemma_fundamental_div_mod_converse(
            len + size - 1,
            size,
            q + 1,
            r - 1,
        );
    }
}

impl ReserveOpts {
    /// Where huge pages are mapped, the length is the fewest of them that hold the
    /// bytes asked for; where none are, it is just those bytes. Pages of a size that
    /// was named are of that size, if it is a power of two; others are the system's.
    pub proof fn lemma_map_len(&self, default_size: Option<usize>)
        requires
            self.len > 0,
            default_size matches Some(n) ==> n > 0,
        ensures
            self.huge_pages is Off ==> self.page_size(default_size) is None,
            forall|p: usize|
                self.huge_pages == Require::Required(HugePages::Size(p)) || self.huge_pages
                    == Require::BestEffort(HugePages::Size(p)) ==> if #[trigger] is_pow2(p as int) {
                    self.page_size(default_size) == Some(p)
                } else {
                    self.page_size(default_size) is None
                },
            self.huge_pages == Require::Required(HugePages::Default) || self.huge_pages
                == Require::BestEffort(HugePages::Default) ==> self.page_size(default_size)
                == default_size,
            self.page_size(default_size) is None ==> self.map_len(default_size) == self.len,
            self.page_size(default_size) matches Some(p) ==> {
                &&& p > 0
                &&& self.map_len(default_size) % p as int == 0
                &&& self.len <= self.map_len(default_size) < self.len + p
            },
    {
        if let Some(HugePages::Size(n)) = self.huge_pages.payload() {
            if is_pow2(n as int) {
                let k = choose|k: nat| n as int == #[trigger] pow2(k);
                vstd::arithmetic::power2::lemma_pow2_pos(k);
            }
        }
        if let Some(p) = self.page_size(default_size) {
            let n = p as int;
            lemma_round_up(self.len as int, n);
            vstd::arithmetic::div_mod::lemma_fundamental_div_mod(self.len as int, n);
            vstd::arithmetic::mul::lemma_mul_is_commutative(n, self.len as int / n);
            vstd::arithmetic::div_mod::lemma_mod_multiples_basic((self.len + n - 1) / n, n);
        }
    }

    /// A reservation that was started maps whole huge pages, as few as hold the bytes that
    /// were asked for, or just those bytes where it maps none.
    pub proof fn lemma_started(&self, started: &Reserving, default_size: Option<usize>, limit: u64)
        requires
            self.len > 0,
            default_size matches Some(n) ==> n > 0,
            started.started(*self, default_size, limit),
        ensures
            started.size() >= self.len,
            started.huge() is None ==> started.size() == self.len,
            started.huge() matches Some(p) ==> p > 0 && started.size() % p as int == 0
                && started.size() - p < self.len,
            self.huge_pages is Off ==> started.huge() is None,
    {
        self.lemma_map_len(default_size);
    }

    /// A reservation is refused before anything is mapped exactly where huge pages
    /// are demanded that the system has not, or a lock is demanded on more bytes than
    /// its limit, if it has one.
    pub proof fn lemma_refused(&self, default_size: Option<usize>, limit: u64)
        requires
            self.len > 0,
            default_size matches Some(n) ==> n > 0,
            self.map_len(default_size) <= usize::MAX,
        ensures
            self.refused(default_size, limit) matches Some(ReserveError::InvalidConfig(_)) <==> {
                ||| self.huge_pages == Require::Required(HugePages::Default) && default_size is None
                ||| exists|p: usize|
                    self.huge_pages == Require::Required(HugePages::Size(p)) && !(#[trigger] is_pow2(
                        p as int,
                    ))
            },
            self.refused(default_size, limit) matches Some(e) ==> e is InvalidConfig
                || e is RlimitTooLow,
            self.refused(default_size, limit) matches Some(
                ReserveError::RlimitTooLow { limit: l, requested },
            ) ==> l == limit && self.lock is Required && limit < requested && limit != u64::MAX
                && requested >= self.len,
            self.lock is Required && limit < self.len && limit != u64::MAX ==> self.refused(
                default_size,
                limit,
            ) is Some,
            self.lock !is Required && self.huge_pages !is Required ==> self.refused(
                default_size,
                limit,
            ) is None,
            limit == u64::MAX && self.huge_pages !is Required ==> self.refused(default_size, limit) is None,
            self.huge_pages is Off && limit >= self.len ==> self.refused(default_size, limit) is None,
    {
        self.lemma_map_len(default_size);
        if let Require::Required(HugePages::Size(p)) = self.huge_pages {
            assert(is_pow2(p as int) || !is_pow2(p as int));
        }
    }
}

/// The mapping requests of a reservation led to `region`: the first one, or, where
/// that was to be repeated, the second.
pub open spec fn mapped_at(
    started: &Reserving,
    first: Result<usize, i32>,
    second: Result<usize, i32>,
    region: Settling,
) -> bool {
    exists|m: Mapped| #[trigger]
        started.leads_to(first, m) && match m {
            Mapped::Region(r) => r == region,
            Mapped::Retry(again, _) => again.leads_to(second, Mapped::Region(region)),
            Mapped::Failed(_) => false,
        }
}

/// Whatever the kernel answers to the requests of a reservation, one that is handed
/// out has everything that was demanded, the huge pages and the lock, and at least
/// the bytes that were asked for. It lacks a lock that was wanted only where that
/// was an attempt, and then says so.
pub proof fn lemma_demands_kept(
    opts: ReserveOpts,
    default_size: Option<usize>,
    limit: u64,
    started: Reserving,
    first: Result<usize, i32>,
    second: Result<usize, i32>,
    region: Settling,
    lock: Option<Result<(), i32>>,
    done: Settled,
)
    requires
        opts.refused(default_size, limit) is None,
        started.started(opts, default_size, limit),
        mapped_at(&started, first, second, region),
        lock is Some <==> opts.lock !is Off,
        region.ends_in(lock, done),
    ensures
        match done {
            Settled::Ready(res) => {
                &&& res.locked() <==> opts.lock !is Off
                &&& res.size() >= opts.len
                &&& opts.huge_pages is Required ==> res.huge() is Some && res.huge()
                    == opts.page_size(default_size)
            },
            Settled::Degraded(res, _) => {
                &&& opts.lock is BestEffort
                &&& !res.locked()
                &&& res.size() >= opts.len
                &&& opts.huge_pages is Required ==> res.huge() is Some && res.huge()
                    == opts.page_size(default_size)
            },
            Settled::Failed(_) => opts.lock is Required,
        },
{
}

} // verus!
