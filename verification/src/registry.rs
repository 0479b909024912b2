//! Named sub-heaps with budgets of the application's choosing.
//!
//! Components declare the sub-heaps they need. The application assigns each a
//! budget, under a total. Configuring checks that every declared sub-heap has a
//! budget and that the budgets fit the total, and then builds them all.

use vstd::prelude::*;
use vstd::string::StringExecFns;
use crate::subheap::{built_as, OnExhaust, SubHeap, SubHeapBuilder};
use crate::sys::diag::{append_dec, dec_text};
use crate::sys::reserve::{Reservation, ReserveError};
use crate::sys::text::same_text;
use crate::sys::{max_entries, SysBoxSlice};

verus! {

/// A component's declaration of a sub-heap.
#[derive(Clone, Copy, Debug)]
pub struct SubHeapRegistration {
    /// The name that budgets are assigned by.
    pub name: &'static str,
    pub on_exhaust: OnExhaust,
    /// Capacity of a CPU's stacks.
    pub cap_per_class: u32,
}

impl SubHeapRegistration {
    /// A declaration with the default policy and capacity.
    pub fn new(name: &'static str) -> (r: SubHeapRegistration)
        ensures
            r.name == name,
            r.on_exhaust == OnExhaust::Report,
            r.cap_per_class == 256,
    {
        SubHeapRegistration { name, on_exhaust: OnExhaust::Report, cap_per_class: 256 }
    }
}

/// The budget assigned to `name`: the first of that name, from position `i` on.
pub open spec fn budget_from(subs: Seq<(&'static str, usize)>, name: Seq<char>, i: int) -> Option<usize>
    decreases subs.len() - i,
{
    if 0 <= i < subs.len() {
        if subs[i].0@ == name {
            Some(subs[i].1)
        } else {
            budget_from(subs, name, i + 1)
        }
    } else {
        None
    }
}

/// Budgets: a total, and bytes per name.
pub struct Budgets {
    total: usize,
    subs: SysBoxSlice<(&'static str, usize)>,
}

impl Budgets {
    /// The most bytes all sub-heaps may take.
    pub closed spec fn limit(&self) -> usize {
        self.total
    }

    /// The assignments, in order.
    pub closed spec fn assigned(&self) -> Seq<(&'static str, usize)> {
        self.subs@
    }

    /// The budget of a name.
    pub open spec fn of(&self, name: Seq<char>) -> Option<usize> {
        budget_from(self.assigned(), name, 0)
    }

    /// No assignments under a total.
    pub fn new(total_bytes: usize) -> (b: Budgets)
        ensures
            b.limit() == total_bytes,
            b.assigned() == Seq::<(&'static str, usize)>::empty(),
    {
        Budgets { total: total_bytes, subs: SysBoxSlice::<(&'static str, usize)>::no_entries() }
    }

    /// Assign `bytes` to a name.
    pub fn sub(self, name: &'static str, bytes: usize) -> (b: Budgets)
        requires
            self.assigned().len() < max_entries(),
        ensures
            b.limit() == self.limit(),
            b.assigned() == self.assigned().push((name, bytes)),
    {
        let mut b = self;
        b.subs.push((name, bytes));
        b
    }

    pub fn total(&self) -> (n: usize)
        ensures
            n == self.limit(),
    {
        self.total
    }

    fn lookup(&self, name: &str) -> (r: Option<usize>)
        ensures
            r == self.of(name@),
            forall|i: int|
                0 <= i < self.assigned().len() && (#[trigger] self.assigned()[i]).0@ == name@ && (
                forall|j: int| 0 <= j < i ==> (#[trigger] self.assigned()[j]).0@ != name@) ==> r
                    == Some(self.assigned()[i].1),
            r is None <==> forall|i: int|
                0 <= i < self.assigned().len() ==> (#[trigger] self.assigned()[i]).0@ != name@,
    {
        let n: usize = self.subs.len();
        let mut i: usize = 0;
        while i < n
            invariant
                i <= n,
                n == self.assigned().len(),
                budget_from(self.assigned(), name@, i as int) == self.of(name@),
            decreases n - i,
        {
            let (key, bytes) = self.subs.at(i);
            if same_text(key, name) {
                proof {
                    self.lemma_first_assignment(name@);
                }
                return Some(bytes);
            }
            i = i + 1;
        }
        proof {
            self.lemma_first_assignment(name@);
        }
        None
    }
}

impl Budgets {
    /// The budget of a name is, byte for byte, what the first assignment of that name
    /// says; a name has none exactly where nothing was assigned to it.
    pub proof fn lemma_first_assignment(&self, name: Seq<char>)
        ensures
            forall|i: int|
                0 <= i < self.assigned().len() && (#[trigger] self.assigned()[i]).0@ == name && (
                forall|j: int| 0 <= j < i ==> (#[trigger] self.assigned()[j]).0@ != name)
                    ==> self.of(name) == Some(self.assigned()[i].1),
            self.of(name) is None <==> forall|i: int|
                0 <= i < self.assigned().len() ==> (#[trigger] self.assigned()[i]).0@ != name,
    {
        let k = lemma_budget_from(self.assigned(), name, 0);
        let subs = self.assigned();
        assert forall|i: int|
            0 <= i < subs.len() && (#[trigger] subs[i]).0@ == name && (forall|j: int|
                0 <= j < i ==> (#[trigger] subs[j]).0@ != name) implies self.of(name) == Some(
            subs[i].1,
        ) by {
            if k < i {
                assert(subs[k].0@ != name);
            }
        }
        if k < subs.len() {
            assert(subs[k].0@ == name);
        }
    }

    /// Further assignments leave the budget of a name as it is, once it has one; the
    /// first one of a name is its budget.
    pub proof fn lemma_assigned(&self, after: &Budgets, name: &'static str, bytes: usize, other: Seq<char>)
        requires
            after.assigned() == self.assigned().push((name, bytes)),
        ensures
            self.of(other) is Some ==> after.of(other) == self.of(other),
            self.of(name@) is None ==> after.of(name@) == Some(bytes),
            other != name@ ==> after.of(other) == self.of(other),
    {
        let k = lemma_budget_from(self.assigned(), other, 0);
        let m = lemma_budget_from(after.assigned(), other, 0);
        let i = lemma_budget_from(self.assigned(), name@, 0);
        let j = lemma_budget_from(after.assigned(), name@, 0);
        let n = self.assigned().len();
        assert(after.assigned()[n as int] == (name, bytes));
        assert(forall|x: int| 0 <= x < n ==> after.assigned()[x] == #[trigger] self.assigned()[x]);
        if k < n {
            assert(after.assigned()[k].0@ == other);
        }
        if m < n {
            assert(self.assigned()[m].0@ == other);
        }
        if j < n {
            assert(self.assigned()[j].0@ == name@);
        }
    }
}

/// Where the budget of a name comes from: the first assignment of it, from position
/// `i` on.
proof fn lemma_budget_from(subs: Seq<(&'static str, usize)>, name: Seq<char>, i: int) -> (k: int)
    requires
        0 <= i <= subs.len(),
    ensures
        i <= k <= subs.len(),
        forall|j: int| i <= j < k ==> (#[trigger] subs[j]).0@ != name,
        k < subs.len() ==> subs[k].0@ == name && budget_from(subs, name, i) == Some(subs[k].1),
        k == subs.len() ==> budget_from(subs, name, i) is None,
    decreases subs.len() - i,
{
    if i < subs.len() && subs[i].0@ != name {
        lemma_budget_from(subs, name, i + 1)
    } else {
        i
    }
}

/// Errors of configuring.
#[derive(Clone, Copy, Debug)]
pub enum ConfigureError {
    /// Configured already.
    AlreadyConfigured,
    /// A declared sub-heap has no budget.
    Unconfigured(&'static str),
    /// The budgets exceed the total.
    OverBudget { requested: usize, total: usize },
    /// A sub-heap's reservation failed.
    Reserve(&'static str, ReserveError),
}

impl ConfigureError {
    /// The error in words, `os` being the system's text for its error number.
    pub open spec fn text(&self, os: Seq<char>) -> Seq<char> {
        match *self {
            ConfigureError::AlreadyConfigured => "toccata registry already configured"@,
            ConfigureError::Unconfigured(n) => "registered sub-heap '"@ + n@
                + "' has no budget in the config map"@,
            ConfigureError::OverBudget { requested, total } => "sub-heap budgets sum to "@
                + dec_text(requested as nat) + " bytes, exceeding total_bytes "@ + dec_text(
                total as nat,
            ),
            ConfigureError::Reserve(n, e) => "sub-heap '"@ + n@ + "' reservation failed: "@
                + e.text(os),
        }
    }

    /// The error in words.
    pub fn message(&self, os: &str) -> (m: String)
        ensures
            m@ == self.text(os@),
            *self matches ConfigureError::Unconfigured(n) ==> m@ == "registered sub-heap '"@ + n@
                + "' has no budget in the config map"@,
            *self matches ConfigureError::OverBudget { requested, total } ==> m@
                == "sub-heap budgets sum to "@ + dec_text(requested as nat)
                + " bytes, exceeding total_bytes "@ + dec_text(total as nat),
            *self matches ConfigureError::Reserve(n, e) ==> m@ == "sub-heap '"@ + n@
                + "' reservation failed: "@ + e.text(os@),
            *self is AlreadyConfigured ==> m@ == "toccata registry already configured"@,
    {
        match *self {
            ConfigureError::AlreadyConfigured => String::from_str(
                "toccata registry already configured",
            ),
            ConfigureError::Unconfigured(n) => {
                let mut m = String::from_str("registered sub-heap '");
                m.append(n);
                m.append("' has no budget in the config map");
                m
            },
            ConfigureError::OverBudget { requested, total } => {
                let mut m = String::from_str("sub-heap budgets sum to ");
                append_dec(&mut m, requested as u64);
                m.append(" bytes, exceeding total_bytes ");
                append_dec(&mut m, total as u64);
                m
            },
            ConfigureError::Reserve(n, e) => {
                let mut m = String::from_str("sub-heap '");
                m.append(n);
                m.append("' reservation failed: ");
                m.append(e.message(os).as_str());
                m
            },
        }
    }
}

/// The first declaration, from position `i` on, without a budget.
pub open spec fn first_missing(
    regs: Seq<SubHeapRegistration>,
    budgets: &Budgets,
    i: int,
) -> Option<int>
    decreases regs.len() - i,
{
    if 0 <= i < regs.len() {
        if budgets.of(regs[i].name@) is None {
            Some(i)
        } else {
            first_missing(regs, budgets, i + 1)
        }
    } else {
        None
    }
}

/// What the search for a declaration without a budget finds, from position `i` on.
proof fn lemma_first_missing(regs: Seq<SubHeapRegistration>, budgets: &Budgets, i: int) -> (k: int)
    requires
        0 <= i <= regs.len(),
    ensures
        i <= k <= regs.len(),
        forall|j: int| i <= j < k ==> budgets.of((#[trigger] regs[j]).name@) is Some,
        k < regs.len() ==> budgets.of(regs[k].name@) is None && first_missing(regs, budgets, i)
            == Some(k),
        k == regs.len() ==> first_missing(regs, budgets, i) is None,
    decreases regs.len() - i,
{
    if i < regs.len() && budgets.of(regs[i].name@) is Some {
        lemma_first_missing(regs, budgets, i + 1)
    } else {
        i
    }
}

/// The sum of the budgets of the first `n` declarations.
pub open spec fn budget_sum(regs: Seq<SubHeapRegistration>, budgets: &Budgets, n: int) -> int
    decreases n,
{
    if n <= 0 {
        0
    } else {
        budget_sum(regs, budgets, n - 1) + match budgets.of(regs[n - 1].name@) {
            Some(b) => b as int,
            None => 0,
        }
    }
}

/// A sum as far as the machine word holds it.
pub open spec fn saturated(n: int) -> usize {
    if n > usize::MAX {
        usize::MAX
    } else {
        n as usize
    }
}

/// The declared sub-heaps, and the built ones once configured.
pub struct Registry {
    registrations: &'static [SubHeapRegistration],
    configured: Option<Vec<SubHeap>>,
}

/// The builder for a declaration: its budget, policy and capacity.
pub open spec fn planned(
    b: SubHeapBuilder,
    reg: SubHeapRegistration,
    budgets: &Budgets,
    num_cpus: u32,
) -> bool {
    &&& b.wf()
    &&& b.label() == reg.name
    &&& budgets.of(reg.name@) == Some(b.budget() as usize)
    &&& 0 <= b.budget() <= usize::MAX
    &&& b.policy() == reg.on_exhaust
    &&& b.cap() == reg.cap_per_class
    &&& b.cpus() == (if num_cpus > 1 {
        num_cpus as int
    } else {
        1
    })
    &&& b.shards_set() is None
}

impl Registry {
    pub closed spec fn declared(&self) -> Seq<SubHeapRegistration> {
        self.registrations@
    }

    /// The built sub-heaps, in the order of their declarations.
    pub closed spec fn built(&self) -> Option<Seq<SubHeap>> {
        match self.configured {
            Some(v) => Some(v@),
            None => None,
        }
    }

    /// A registry of these declarations.
    pub fn new(registrations: &'static [SubHeapRegistration]) -> (r: Registry)
        ensures
            r.declared() == registrations@,
            r.built() is None,
    {
        Registry { registrations, configured: None }
    }

    /// The error that configuring with these budgets leads to before anything is
    /// reserved.
    pub open spec fn refused(&self, budgets: &Budgets) -> Option<ConfigureError> {
        if self.built() is Some {
            Some(ConfigureError::AlreadyConfigured)
        } else {
            match first_missing(self.declared(), budgets, 0) {
                Some(i) => Some(ConfigureError::Unconfigured(self.declared()[i].name)),
                None => {
                    let sum = saturated(
                        budget_sum(self.declared(), budgets, self.declared().len() as int),
                    );
                    if sum > budgets.limit() {
                        Some(
                            ConfigureError::OverBudget { requested: sum, total: budgets.limit() },
                        )
                    } else {
                        None
                    }
                },
            }
        }
    }

    /// Check the budgets, and give the builders of the sub-heaps, whose
    /// [`reserve_bytes`](SubHeapBuilder::reserve_bytes) are to be reserved.
    pub fn plan(&self, budgets: &Budgets, num_cpus: u32) -> (r: Result<
        Vec<SubHeapBuilder>,
        ConfigureError,
    >)
        ensures
            match self.refused(budgets) {
                Some(e) => r == Err::<Vec<SubHeapBuilder>, ConfigureError>(e),
                None => r matches Ok(plan) && plan@.len() == self.declared().len() && forall|i: int|
                    0 <= i < plan@.len() ==> planned(
                        #[trigger] plan@[i],
                        self.declared()[i],
                        budgets,
                        num_cpus,
                    ),
            },
            r matches Ok(plan) ==> forall|i: int, k: int|
                0 <= i < plan@.len() && 0 <= k < budgets.assigned().len() && (
                #[trigger] budgets.assigned()[k]).0@ == (#[trigger] plan@[i]).label()@ && (forall|
                    j: int,
                |
                    0 <= j < k ==> (#[trigger] budgets.assigned()[j]).0@ != plan@[i].label()@)
                    ==> plan@[i].budget() == budgets.assigned()[k].1,
            r matches Ok(plan) ==> forall|i: int|
                0 <= i < plan@.len() ==> (#[trigger] plan@[i]).label() == self.declared()[i].name
                    && plan@[i].policy() == self.declared()[i].on_exhaust && plan@[i].cap()
                    == self.declared()[i].cap_per_class && plan@[i].shards_set() is None
                    && plan@[i].cpus() >= 1 && plan@[i].cpus() >= num_cpus && (plan@[i].cpus() == 1
                    || plan@[i].cpus() == num_cpus) && exists|k: int|
                    0 <= k < budgets.assigned().len() && (#[trigger] budgets.assigned()[k]).0@
                        == plan@[i].label()@,
            r matches Ok(plan) ==> budgets.limit() < usize::MAX ==> plan@.map_values(
                |b: SubHeapBuilder| b.budget(),
            ).fold_left(0int, |x: int, y: int| x + y) <= budgets.limit(),
    {
        if self.configured.is_some() {
            return Err(ConfigureError::AlreadyConfigured);
        }
        let ghost regs = self.registrations@;
        let mut plan: Vec<SubHeapBuilder> = Vec::new();
        let mut sum: usize = 0;
        let mut i: usize = 0;
        while i < self.registrations.len()
            invariant
                i <= regs.len(),
                regs == self.registrations@,
                self.configured is None,
                first_missing(regs, budgets, 0) == first_missing(regs, budgets, i as int),
                0 <= budget_sum(regs, budgets, i as int),
                sum == saturated(budget_sum(regs, budgets, i as int)),
                plan@.len() == i,
                forall|j: int|
                    0 <= j < i ==> planned(#[trigger] plan@[j], regs[j], budgets, num_cpus),
            decreases regs.len() - i,
        {
            let reg: SubHeapRegistration = self.registrations[i];
            match budgets.lookup(reg.name) {
                Some(b) => {
                    sum = if b > usize::MAX - sum {
                        usize::MAX
                    } else {
                        sum + b
                    };
                    let builder = SubHeapBuilder::new(reg.name, b, num_cpus).on_exhaust(
                        reg.on_exhaust,
                    ).cap_per_class(reg.cap_per_class);
                    assert(planned(builder, regs[i as int], budgets, num_cpus));
                    plan.push(builder);
                },
                None => {
                    return Err(ConfigureError::Unconfigured(reg.name));
                },
            }
            i = i + 1;
        }
        if sum > budgets.total() {
            return Err(ConfigureError::OverBudget { requested: sum, total: budgets.total() });
        }
        proof {
            let bytes = plan@.map_values(|b: SubHeapBuilder| b.budget());
            assert forall|j: int| 0 <= j < bytes.len() implies budgets.of(
                (#[trigger] self.declared()[j]).name@,
            ) == Some(bytes[j] as usize) && 0 <= bytes[j] <= usize::MAX by {
                assert(planned(plan@[j], regs[j], budgets, num_cpus));
            }
            self.lemma_budget_sum(budgets, bytes);
            assert forall|j: int| 0 <= j < plan@.len() implies (#[trigger] plan@[j]).label()
                == self.declared()[j].name && budgets.of(plan@[j].label()@) == Some(
                plan@[j].budget() as usize,
            ) && 0 <= plan@[j].budget() <= usize::MAX by {
                assert(planned(plan@[j], regs[j], budgets, num_cpus));
            }
            assert forall|i: int, k: int|
                0 <= i < plan@.len() && 0 <= k < budgets.assigned().len() && (
                #[trigger] budgets.assigned()[k]).0@ == (#[trigger] plan@[i]).label()@ && (forall|
                    j: int,
                |
                    0 <= j < k ==> (#[trigger] budgets.assigned()[j]).0@
                        != plan@[i].label()@) implies plan@[i].budget() == budgets.assigned()[k].1 by {
                budgets.lemma_first_assignment(plan@[i].label()@);
            }
            assert forall|i: int| 0 <= i < plan@.len() implies exists|k: int|
                0 <= k < budgets.assigned().len() && (#[trigger] budgets.assigned()[k]).0@ == (
                #[trigger] plan@[i]).label()@ by {
                budgets.lemma_first_assignment(plan@[i].label()@);
            }
        }
        Ok(plan)
    }

    /// Build the planned sub-heaps over what came of reserving memory for each. The
    /// first reservation that failed is reported, and nothing is configured.
    pub fn configure(
        &mut self,
        plan: Vec<SubHeapBuilder>,
        reserved: Vec<Result<Reservation, ReserveError>>,
    ) -> (r: Result<(), ConfigureError>)
        requires
            old(self).built() is None ==> {
                &&& plan@.len() == old(self).declared().len()
                &&& reserved@.len() == plan@.len()
                &&& forall|i: int|
                    0 <= i < plan@.len() ==> (#[trigger] plan@[i]).wf() && plan@[i].fits()
                        && plan@[i].label() == old(self).declared()[i].name && (
                    reserved@[i] matches Ok(res) ==> plan@[i].held_by(res))
            },
        ensures
            final(self).declared() == old(self).declared(),
            if old(self).built() is Some {
                &&& r == Err::<(), ConfigureError>(ConfigureError::AlreadyConfigured)
                &&& *final(self) == *old(self)
            } else {
                match r {
                    Err(e) => final(self).built() is None && exists|i: int|
                        #![trigger reserved@[i]]
                        0 <= i < reserved@.len() && (forall|j: int|
                            0 <= j < i ==> (#[trigger] reserved@[j]) is Ok) && (
                        reserved@[i] matches Err(x) && e == ConfigureError::Reserve(
                            old(self).declared()[i].name,
                            x,
                        )),
                    Ok(_) => final(self).built() matches Some(subs) && subs.len() == plan@.len()
                        && forall|i: int|
                        0 <= i < plan@.len() ==> (reserved@[i] matches Ok(res) && built_as(
                            #[trigger] subs[i],
                            plan@[i],
                            res,
                        )),
                }
            },
    {
        if self.configured.is_some() {
            return Err(ConfigureError::AlreadyConfigured);
        }
        let n: usize = plan.len();
        let mut subs: Vec<SubHeap> = Vec::new();
        let mut left = reserved;
        let ghost all = left@;
        let mut i: usize = 0;
        assert(all.skip(0) =~= all);
        while i < n
            invariant
                i <= n,
                n == plan@.len(),
                n == all.len(),
                all == reserved@,
                left@ == all.skip(i as int),
                self.configured is None,
                self.registrations@ == old(self).registrations@,
                self.registrations@.len() == n,
                forall|j: int|
                    0 <= j < n ==> (#[trigger] plan@[j]).wf() && plan@[j].fits() && plan@[j].label()
                        == self.registrations@[j].name && (all[j] matches Ok(res) ==> plan@[j].held_by(res)),
                subs@.len() == i,
                forall|j: int| 0 <= j < i ==> (#[trigger] all[j]) is Ok,
                forall|j: int|
                    0 <= j < i ==> built_as(#[trigger] subs@[j], plan@[j], all[j]->Ok_0),
            decreases n - i,
        {
            let outcome = left.remove(0);
            assert(left@ =~= all.skip(i + 1));
            assert(outcome == all[i as int]);
            let b: SubHeapBuilder = plan[i];
            match b.build_standalone(outcome) {
                Ok(sub) => {
                    subs.push(sub);
                },
                Err(e) => {
                    assert(all[i as int] is Err);
                    return Err(ConfigureError::Reserve(self.registrations[i].name, e));
                },
            }
            i = i + 1;
        }
        self.configured = Some(subs);
        proof {
            assert forall|j: int| 0 <= j < n implies (all[j] matches Ok(res) && built_as(
                #[trigger] subs@[j],
                plan@[j],
                res,
            )) by {
                assert(all[j] is Ok);
            }
        }
        Ok(())
    }
}

/// Position of the first sub-heap named `name`, from position `i` on.
pub open spec fn named_from(subs: Seq<SubHeap>, name: Seq<char>, i: int) -> Option<int>
    decreases subs.len() - i,
{
    if 0 <= i < subs.len() {
        if subs[i].label()@ == name {
            Some(i)
        } else {
            named_from(subs, name, i + 1)
        }
    } else {
        None
    }
}

/// What is found by name is the first sub-heap of that name; nothing is, exactly where
/// none has it.
pub proof fn lemma_named(subs: Seq<SubHeap>, name: Seq<char>, i: int)
    requires
        0 <= i <= subs.len(),
    ensures
        forall|k: int|
            i <= k < subs.len() && (#[trigger] subs[k]).label()@ == name && (forall|j: int|
                i <= j < k ==> (#[trigger] subs[j]).label()@ != name) ==> named_from(subs, name, i)
                == Some(k),
        named_from(subs, name, i) is None <==> forall|k: int|
            i <= k < subs.len() ==> (#[trigger] subs[k]).label()@ != name,
    decreases subs.len() - i,
{
    if i < subs.len() {
        if subs[i].label()@ != name {
            lemma_named(subs, name, i + 1);
        }
    }
}

fn find_named(subs: &Vec<SubHeap>, name: &str) -> (r: Option<usize>)
    ensures
        r matches Some(i) ==> i < subs@.len() && subs@[i as int].label()@ == name@ && forall|j: int|
            0 <= j < i ==> (#[trigger] subs@[j]).label()@ != name@,
        r is None ==> forall|j: int| 0 <= j < subs@.len() ==> (#[trigger] subs@[j]).label()@ != name@,
        match r {
            Some(i) => named_from(subs@, name@, 0) == Some(i as int) && i < subs@.len(),
            None => named_from(subs@, name@, 0) is None,
        },
{
    let mut i: usize = 0;
    while i < subs.len()
        invariant
            i <= subs@.len(),
            named_from(subs@, name@, 0) == named_from(subs@, name@, i as int),
            forall|j: int| 0 <= j < i ==> (#[trigger] subs@[j]).label()@ != name@,
        decreases subs@.len() - i,
    {
        if same_text(subs[i].name(), name) {
            return Some(i);
        }
        i = i + 1;
    }
    None
}

impl Registry {
    /// The sub-heap of a name; `None` before configuring or for a name that was
    /// not declared.
    pub fn subheap(&self, name: &str) -> (r: Option<&SubHeap>)
        ensures
            match self.built() {
                None => r is None,
                Some(subs) => match named_from(subs, name@, 0) {
                    Some(i) => r matches Some(s) && *s == subs[i],
                    None => r is None,
                },
            },
            r matches Some(s) ==> s.label()@ == name@,
            self.built() matches Some(subs) ==> forall|k: int|
                0 <= k < subs.len() && (#[trigger] subs[k]).label()@ == name@ && (forall|j: int|
                    0 <= j < k ==> (#[trigger] subs[j]).label()@ != name@) ==> (r matches Some(s)
                    && *s == subs[k]),
    {
        match &self.configured {
            Some(subs) => match find_named(subs, name) {
                Some(i) => Some(&subs[i]),
                None => None,
            },
            None => None,
        }
    }

    /// The sub-heap of a name, to work with it.
    pub fn subheap_mut(&mut self, name: &str) -> (r: Option<&mut SubHeap>)
        ensures
            final(self).declared() == old(self).declared(),
            match old(self).built() {
                None => r is None && *final(self) == *old(self),
                Some(subs) => match named_from(subs, name@, 0) {
                    Some(i) => r matches Some(s) && *s == subs[i] && final(self).built() == Some(
                        subs.update(i, *final(s)),
                    ),
                    None => r is None && final(self).built() == old(self).built(),
                },
            },
            r matches Some(s) ==> s.label()@ == name@,
            old(self).built() matches Some(subs) ==> forall|k: int|
                0 <= k < subs.len() && (#[trigger] subs[k]).label()@ == name@ && (forall|j: int|
                    0 <= j < k ==> (#[trigger] subs[j]).label()@ != name@) ==> (r matches Some(s)
                    && *s == subs[k]),
    {
        match &mut self.configured {
            Some(subs) => match find_named(subs, name) {
                Some(i) => Some(&mut subs[i]),
                None => None,
            },
            None => None,
        }
    }

    /// All sub-heaps, in the order of their declarations; none before configuring.
    pub fn all(&self) -> (r: &[SubHeap])
        ensures
            r@ == (match self.built() {
                Some(subs) => subs,
                None => Seq::<SubHeap>::empty(),
            }),
    {
        match &self.configured {
            Some(subs) => subs.as_slice(),
            None => {
                let none: &[SubHeap] = &[];
                assert(none@ =~= Seq::<SubHeap>::empty());
                none
            },
        }
    }

    pub fn is_configured(&self) -> (b: bool)
        ensures
            b == self.built() is Some,
    {
        self.configured.is_some()
    }

    /// What is planned for a declaration has the budget that its name was assigned first,
    /// byte for byte, and everything else as declared.
    pub proof fn lemma_planned(
        b: SubHeapBuilder,
        reg: SubHeapRegistration,
        budgets: &Budgets,
        num_cpus: u32,
        i: int,
    )
        requires
            planned(b, reg, budgets, num_cpus),
            0 <= i < budgets.assigned().len(),
            budgets.assigned()[i].0@ == reg.name@,
            forall|j: int| 0 <= j < i ==> (#[trigger] budgets.assigned()[j]).0@ != reg.name@,
        ensures
            b.budget() == budgets.assigned()[i].1,
            b.label() == reg.name,
            b.policy() == reg.on_exhaust,
            b.cap() == reg.cap_per_class,
            b.cpus() >= 1 && b.cpus() >= num_cpus && (b.cpus() == 1 || b.cpus() == num_cpus),
    {
        budgets.lemma_first_assignment(reg.name@);
    }

    /// The budgets of the declarations add up to their sum, one by one.
    pub proof fn lemma_budget_sum(&self, budgets: &Budgets, bytes: Seq<int>)
        requires
            bytes.len() <= self.declared().len(),
            forall|i: int|
                0 <= i < bytes.len() ==> budgets.of((#[trigger] self.declared()[i]).name@) == Some(bytes[i] as usize) && 0 <= bytes[i] <= usize::MAX,
        ensures
            budget_sum(self.declared(), budgets, bytes.len() as int) == bytes.fold_left(
                0int,
                |x: int, y: int| x + y,
            ),
            0 <= budget_sum(self.declared(), budgets, bytes.len() as int),
        decreases bytes.len(),
    {
        if bytes.len() > 0 {
            let n = bytes.len() - 1;
            assert(budgets.of(self.declared()[n].name@) == Some(bytes[n] as usize));
            self.lemma_budget_sum(budgets, bytes.drop_last());
        }
    }

    /// Declarations are refused exactly where the registry is configured already, one
    /// of them was assigned nothing, or their budgets add up to more than the total;
    /// and the error tells which, by the first name without a budget or the sum.
    pub proof fn lemma_refused(&self, budgets: &Budgets, bytes: Seq<int>)
        ensures
            self.refused(budgets) == Some(ConfigureError::AlreadyConfigured) <==> self.built() is Some,
            self.refused(budgets) matches Some(ConfigureError::Unconfigured(name)) ==> exists|i: int|
                {
                    &&& 0 <= i < self.declared().len()
                    &&& (#[trigger] self.declared()[i]).name == name
                    &&& budgets.of(name@) is None
                    &&& forall|j: int|
                        0 <= j < i ==> budgets.of((#[trigger] self.declared()[j]).name@) is Some
                },
            self.built() is None && (exists|i: int|
                0 <= i < self.declared().len() && budgets.of(
                    (#[trigger] self.declared()[i]).name@,
                ) is None) ==> self.refused(budgets) matches Some(ConfigureError::Unconfigured(_)),
            self.built() is None && bytes.len() == self.declared().len() && (forall|i: int|
                0 <= i < bytes.len() ==> budgets.of((#[trigger] self.declared()[i]).name@) == Some(bytes[i] as usize) && 0 <= bytes[i] <= usize::MAX) ==> {
                let sum = bytes.fold_left(0int, |x: int, y: int| x + y);
                &&& sum <= budgets.limit() ==> self.refused(budgets) is None
                &&& budgets.limit() < sum <= usize::MAX ==> self.refused(budgets) == Some(
                    ConfigureError::OverBudget { requested: sum as usize, total: budgets.limit() },
                )
                &&& sum > usize::MAX && budgets.limit() < usize::MAX ==> self.refused(budgets)
                    == Some(
                    ConfigureError::OverBudget {
                        requested: usize::MAX,
                        total: budgets.limit(),
                    },
                )
            },
    {
        let regs = self.declared();
        let k = lemma_first_missing(regs, budgets, 0);
        if self.built() is None && bytes.len() == regs.len() && (forall|i: int|
            0 <= i < bytes.len() ==> budgets.of((#[trigger] regs[i]).name@) == Some(bytes[i] as usize) && 0 <= bytes[i] <= usize::MAX) {
            self.lemma_budget_sum(budgets, bytes);
            if k < regs.len() {
                assert(budgets.of(regs[k].name@) is None);
            }
        }
        if k < regs.len() {
            assert(regs[k].name == regs[k].name);
        }
    }

    /// Budgets that are accepted do not exceed their total, unless that is the
    /// largest number there is, at which sums saturate.
    pub proof fn lemma_within_total(&self, budgets: &Budgets)
        requires
            self.refused(budgets) is None,
            budgets.limit() < usize::MAX,
        ensures
            budget_sum(self.declared(), budgets, self.declared().len() as int) <= budgets.limit(),
    {
    }
}

} // verus!
