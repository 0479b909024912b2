use toccata::sys::reserve::{
    default_huge_page_size, huge_page_flags, HugePages, Mapped, Notice, Require, Reservation,
    ReserveError, ReserveOpts, Reserving, Settled, MAP_HUGETLB,
};

const MB: usize = 1024 * 1024;
const BASE: usize = 0x1_0000_0000;

fn start(opts: ReserveOpts, default_size: Option<usize>, limit: u64) -> (Reserving, Option<Notice>) {
    match Reservation::reserve_with(opts, default_size, limit) {
        Ok(r) => r,
        Err(e) => panic!("{}", e.message("")),
    }
}

#[test]
fn the_defaults_map_base_pages_and_lock() {
    let (r, notice) = match Reservation::reserve(5 * MB + 1, u64::MAX) {
        Ok(x) => x,
        Err(e) => panic!("{}", e.message("")),
    };
    assert_eq!(notice, None);
    let req = r.request();
    assert_eq!((req.len, req.huge, req.huge_flags, req.populate), (5 * MB + 1, None, 0, false));
    let region = match r.mapped(Ok(BASE)) {
        Mapped::Region(s) => s,
        other => panic!("{other:?}"),
    };
    assert!(region.hint_transparent());
    // The lock faults the pages in.
    assert!(!region.populate_by_advice());
    assert!(region.keep_out_of_dumps());
    assert!(region.wants_lock());
    match region.settled(Some(Ok(()))) {
        Settled::Ready(res) => {
            assert_eq!((res.base(), res.len(), res.as_ptr()), (BASE, 5 * MB + 1, BASE));
            assert!(res.is_locked());
            assert!(!res.is_empty());
            assert_eq!(res.huge_page_size(), None);
        }
        other => panic!("{other:?}"),
    }
}

#[test]
fn a_required_lock_over_the_limit_is_refused() {
    let e = Reservation::reserve(2 * MB, MB as u64).unwrap_err();
    assert!(matches!(e, ReserveError::RlimitTooLow { limit: 1048576, requested: 2097152 }));
    assert_eq!(
        e.message(""),
        "toccata cannot lock 2097152 bytes: RLIMIT_MEMLOCK is only 1048576. Raise RLIMIT_MEMLOCK \
         (ulimit -l unlimited / LimitMEMLOCK=infinity) or lower the budget."
    );
    // At the limit it is let through.
    assert!(Reservation::reserve(MB, MB as u64).is_ok());
}

#[test]
fn an_attempted_lock_over_the_limit_is_reported() {
    let opts = ReserveOpts::new(2 * MB).lock(Require::attempt());
    let (r, notice) = start(opts, None, MB as u64);
    assert_eq!(notice, Some(Notice::LimitTooLow(2 * MB)));
    let region = match r.mapped(Ok(BASE)) {
        Mapped::Region(s) => s,
        other => panic!("{other:?}"),
    };
    assert!(region.wants_lock());
    match region.settled(Some(Err(12))) {
        Settled::Degraded(res, n) => {
            assert!(!res.is_locked());
            assert_eq!(n, Notice::Unlocked(2 * MB));
            assert_eq!(n.bytes(), 2 * MB);
            assert!(n.prefix().ends_with("[bytes="));
        }
        other => panic!("{other:?}"),
    }
}

#[test]
fn a_required_lock_that_fails_is_an_error() {
    let (r, _) = start(ReserveOpts::new(MB), None, u64::MAX);
    let region = match r.mapped(Ok(BASE)) {
        Mapped::Region(s) => s,
        other => panic!("{other:?}"),
    };
    let e = match region.settled(Some(Err(12))) {
        Settled::Failed(e) => e,
        other => panic!("{other:?}"),
    };
    assert!(matches!(e, ReserveError::Mlock { source: 12, limit: u64::MAX, requested: 1048576 }));
    assert_eq!(
        e.message("out of memory"),
        "toccata reservation mlock2 failed: out of memory. Requested 1048576 bytes but \
         RLIMIT_MEMLOCK is 18446744073709551615. Raise it (ulimit -l / LimitMEMLOCK=infinity in \
         the unit / a higher container memlock limit), or lower toccata's configured budget."
    );
}

#[test]
fn huge_pages_round_the_length_up() {
    let opts = ReserveOpts::new(3 * MB).huge_pages(HugePages::Size(2 * MB));
    let (r, _) = start(opts, None, u64::MAX);
    let req = r.request();
    assert_eq!((req.len, req.huge, req.populate), (4 * MB, Some(2 * MB), true));
    assert_eq!(req.huge_flags, MAP_HUGETLB + (21 << 26));
    // Demanded huge pages are not given up.
    let e = match r.mapped(Err(12)) {
        Mapped::Failed(e) => e,
        other => panic!("{other:?}"),
    };
    assert!(matches!(e, ReserveError::Mmap(12)));
    assert_eq!(e.message("no memory"), "toccata reservation mmap failed: no memory");
    // The limit is held against the rounded length.
    assert!(matches!(
        Reservation::reserve_with(opts, None, 3 * MB as u64),
        Err(ReserveError::RlimitTooLow { requested: 4194304, .. })
    ));
}

#[test]
fn attempted_huge_pages_fall_back_to_base_pages() {
    let opts = ReserveOpts::new(3 * MB)
        .huge_pages_best_effort(HugePages::Default)
        .lock(Require::off())
        .dontdump(false);
    let (r, _) = start(opts, Some(2 * MB), u64::MAX);
    assert_eq!(r.request().len, 4 * MB);
    // The default size is asked for without size bits.
    assert_eq!(r.request().huge_flags, MAP_HUGETLB);
    let again = match r.mapped(Err(12)) {
        Mapped::Retry(a, n) => {
            assert_eq!(n, Notice::NoHugePages(3 * MB));
            a
        }
        other => panic!("{other:?}"),
    };
    let req = again.request();
    assert_eq!((req.len, req.huge, req.huge_flags, req.populate), (3 * MB, None, 0, false));
    let region = match again.mapped(Ok(BASE)) {
        Mapped::Region(s) => s,
        other => panic!("{other:?}"),
    };
    assert_eq!((region.base(), region.len()), (BASE, 3 * MB));
    // Base pages after all: hinted, and faulted in by advice, for nothing locks them.
    assert!(region.hint_transparent() && region.populate_by_advice());
    assert!(!region.keep_out_of_dumps() && !region.wants_lock());
    match region.settled(None) {
        Settled::Ready(res) => assert_eq!((res.is_locked(), res.huge_page_size()), (false, None)),
        other => panic!("{other:?}"),
    }
}

#[test]
fn an_impossible_huge_page_size_is_an_error_only_if_demanded() {
    let demanded = ReserveOpts::new(MB).huge_pages(HugePages::Size(3 * MB));
    let e = Reservation::reserve_with(demanded, None, u64::MAX).unwrap_err();
    assert_eq!(
        e.message(""),
        "toccata reservation config invalid: huge page size must be a power of two"
    );
    let unknown = ReserveOpts::new(MB).huge_pages(HugePages::Default);
    let e = Reservation::reserve_with(unknown, None, u64::MAX).unwrap_err();
    assert!(matches!(e, ReserveError::InvalidConfig("could not determine the default huge page size")));
    let attempted = ReserveOpts::new(MB).huge_pages_best_effort(HugePages::Default).populate(false);
    let (r, _) = start(attempted, None, u64::MAX);
    assert_eq!((r.request().len, r.request().huge), (MB, None));
}

#[test]
fn huge_page_flags_hold_the_exponent() {
    assert_eq!(huge_page_flags(2 * MB), 0x4_0000 + (21 << 26));
    assert_eq!(huge_page_flags(1 << 30), 0x4_0000 + (30 << 26));
    assert_eq!(huge_page_flags(3), MAP_HUGETLB);
}

#[test]
fn the_default_huge_page_size_is_read_from_meminfo() {
    let text = "MemTotal:       16384 kB\nHugepagesize:    2048 kB\nHugetlb: 0 kB\n";
    assert_eq!(default_huge_page_size(text), Some(2048 * 1024));
    assert_eq!(default_huge_page_size("Hugepagesize: 2 MB"), Some(2 * MB));
    assert_eq!(default_huge_page_size("Hugepagesize: 64"), Some(65536));
    assert_eq!(default_huge_page_size("Hugepagesize:\u{2003}2\u{a0}MB\r\n"), Some(2 * MB));
    assert_eq!(default_huge_page_size("Hugepagesize: 0 kB"), None);
    assert_eq!(default_huge_page_size("Hugepagesize: many kB"), None);
    assert_eq!(default_huge_page_size("Hugepagesize:"), None);
    assert_eq!(default_huge_page_size("MemTotal: 1 kB\n"), None);
    assert_eq!(default_huge_page_size("Hugepagesize: 18446744073709551615 kB"), None);
}

#[test]
fn a_requirement_may_carry_a_value() {
    assert_eq!(Require::Required(7).value(), Some(&7));
    assert_eq!(Require::BestEffort(7).value(), Some(&7));
    assert_eq!(Require::<u8>::Off.value(), None);
    assert_eq!(Require::on(), Require::Required(()));
}

#[test]
fn huge_pages_need_a_mapping() {
    let plain = ReserveOpts::new(4096);
    assert!(plain.check_unmapped().is_ok());
    assert!(plain.huge_pages_best_effort(HugePages::Default).check_unmapped().is_ok());
    let e = plain.huge_pages(HugePages::Default).check_unmapped().unwrap_err();
    assert!(matches!(e, ReserveError::InvalidConfig("huge pages are only supported on Linux")));
}
