use toccata::registry::{Budgets, ConfigureError, Registry, SubHeapRegistration};
use toccata::rseq::abi::ThreadView;
use toccata::subheap::{OnExhaust, SubHeapBuilder};
use toccata::sys::reserve::{Reservation, ReserveError};

const MB: usize = 1024 * 1024;

fn two() -> Registry {
    Registry::new(&[
        SubHeapRegistration { name: "rx", on_exhaust: OnExhaust::Abort, cap_per_class: 256 },
        SubHeapRegistration { name: "tx", on_exhaust: OnExhaust::Report, cap_per_class: 256 },
    ])
}

fn map(plan: &[SubHeapBuilder]) -> Vec<Result<Reservation, ReserveError>> {
    let mut base = 0x1_0000_0000usize;
    let mut out = Vec::new();
    for b in plan {
        let len = b.reserve_bytes();
        out.push(Ok(Reservation::of_mapping(base, len, true, None)));
        base += (len + 4095) / 4096 * 4096;
    }
    out
}

#[test]
fn registered_subheaps_are_built_and_found() {
    let mut reg = two();
    assert!(!reg.is_configured());
    assert!(reg.subheap("rx").is_none());
    let budgets = Budgets::new(8 * MB).sub("rx", 4 * MB).sub("tx", 2 * MB);
    assert_eq!(budgets.total(), 8 * MB);
    let plan = reg.plan(&budgets, 4).unwrap();
    let mapped = map(&plan);
    assert!(reg.configure(plan, mapped).is_ok());
    assert!(reg.is_configured());
    assert_eq!(reg.all().len(), 2);
    let rx = reg.subheap("rx").unwrap();
    assert_eq!((rx.name(), rx.budget_bytes(), rx.on_exhaust()), ("rx", 4 * MB, OnExhaust::Abort));
    assert_eq!(reg.subheap("tx").unwrap().budget_bytes(), 2 * MB);
    assert!(reg.subheap("other").is_none());
    let seen = ThreadView::on_cpu(0, 0x7000, 0);
    let p = reg.subheap_mut("tx").unwrap().allocate(&seen, 100);
    assert!(p.is_some());
    assert_eq!(reg.subheap("tx").unwrap().live_objects(), 1);
    assert_eq!(reg.subheap("rx").unwrap().live_objects(), 0);
}

#[test]
fn a_missing_budget_is_refused() {
    let e = two().plan(&Budgets::new(8 * MB).sub("rx", MB), 4).map(|_| ()).unwrap_err();
    assert!(matches!(e, ConfigureError::Unconfigured("tx")));
    assert_eq!(e.message(""), "registered sub-heap 'tx' has no budget in the config map");
}

#[test]
fn budgets_over_the_total_are_refused() {
    let budgets = Budgets::new(3 * MB).sub("rx", 2 * MB).sub("tx", 2 * MB);
    let e = two().plan(&budgets, 4).map(|_| ()).unwrap_err();
    assert!(matches!(e, ConfigureError::OverBudget { requested: 4194304, total: 3145728 }));
    // At the total they are let through.
    let budgets = Budgets::new(4 * MB).sub("rx", 2 * MB).sub("tx", 2 * MB);
    assert!(two().plan(&budgets, 4).is_ok());
}

#[test]
fn a_failed_reservation_is_passed_on() {
    let mut reg = two();
    let plan = reg.plan(&Budgets::new(8 * MB).sub("rx", MB).sub("tx", MB), 4).unwrap();
    let mut mapped = map(&plan);
    mapped[1] = Err(ReserveError::Mmap(12));
    let e = reg.configure(plan, mapped).unwrap_err();
    assert!(matches!(e, ConfigureError::Reserve("tx", ReserveError::Mmap(12))));
    assert!(!reg.is_configured());
}

#[test]
fn a_second_configuration_is_refused() {
    let mut reg = two();
    let budgets = Budgets::new(8 * MB).sub("rx", MB).sub("tx", MB);
    let plan = reg.plan(&budgets, 4).unwrap();
    let again = reg.plan(&budgets, 4).unwrap();
    let mapped = map(&plan);
    let mapped_again = map(&again);
    assert!(reg.configure(plan, mapped).is_ok());
    assert!(matches!(reg.plan(&budgets, 4), Err(ConfigureError::AlreadyConfigured)));
    assert!(matches!(
        reg.configure(again, mapped_again),
        Err(ConfigureError::AlreadyConfigured)
    ));
}

#[test]
fn every_refusal_has_its_words() {
    let e = ConfigureError::AlreadyConfigured;
    assert_eq!(e.message(""), "toccata registry already configured");
    let e = ConfigureError::OverBudget { requested: 50, total: 30 };
    assert_eq!(e.message(""), "sub-heap budgets sum to 50 bytes, exceeding total_bytes 30");
    let e = ConfigureError::Reserve("tx", ReserveError::Mmap(12));
    assert_eq!(
        e.message("no memory"),
        "sub-heap 'tx' reservation failed: toccata reservation mmap failed: no memory"
    );
}

#[test]
fn a_declaration_has_defaults() {
    let r = SubHeapRegistration::new("rx");
    assert_eq!((r.name, r.on_exhaust, r.cap_per_class), ("rx", OnExhaust::Report, 256));
}

#[test]
fn a_configured_registry_refuses_whatever_it_is_given() {
    let mut reg = two();
    let budgets = Budgets::new(8 * MB).sub("rx", MB).sub("tx", MB);
    let plan = reg.plan(&budgets, 4).unwrap();
    let mapped = map(&plan);
    assert!(reg.configure(plan, mapped).is_ok());
    let e = reg.configure(Vec::new(), Vec::new()).unwrap_err();
    assert!(matches!(e, ConfigureError::AlreadyConfigured));
    assert_eq!(reg.all().len(), 2);
}
