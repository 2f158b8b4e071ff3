//! Cells for data shared inside a single-hart kernel.
use vstd::prelude::*;

verus! {

#[verifier::external_type_specification]
#[verifier::external_body]
#[verifier::reject_recursive_types(T)]
pub struct ExRefCell<T: ?Sized>(core::cell::RefCell<T>);

/// `core::cell::RefCell::new`: makes a cell holding `value`. What the cell
/// holds is not visible to proofs.
#[verifier::external_body]
fn ref_cell_new<T>(value: T) -> core::cell::RefCell<T> {
    core::cell::RefCell::new(value)
}

/// A cell whose borrows are taken with interrupts masked, so that an
/// interrupt handler can never observe a borrow in progress.
#[verifier::reject_recursive_types(T)]
pub struct UpIntrFreeCell<T> {
    inner: core::cell::RefCell<T>,
    held: Ghost<T>,
}

impl<T> UpIntrFreeCell<T> {
    /// The value the cell holds. No borrow of the cell is offered here, so it
    /// holds the value it was made with.
    pub closed spec fn value(&self) -> T {
        self.held@
    }

    /// A cell holding `value`.
    pub fn new(value: T) -> (c: Self)
        ensures
            c.value() == value,
    {
        let held = Ghost(value);
        UpIntrFreeCell { inner: ref_cell_new(value), held }
    }
}

/// Bookkeeping of nested interrupt masking: how many borrows are open, and
/// whether interrupts were enabled before the outermost one.
#[derive(Copy, Clone, Debug, PartialEq, Eq, Structural)]
pub struct IntrMaskingInfo {
    pub nested_level: usize,
    pub sie_before_masking: bool,
}

impl IntrMaskingInfo {
    /// The state after a borrow opens with interrupt-enable bit `sie`.
    pub open spec fn enter_spec(self, sie: bool) -> IntrMaskingInfo {
        IntrMaskingInfo {
            nested_level: (self.nested_level + 1) as usize,
            sie_before_masking: if self.nested_level == 0 { sie } else { self.sie_before_masking },
        }
    }

    /// The state after a borrow closes, and whether interrupts are enabled again.
    pub open spec fn exit_spec(self) -> (IntrMaskingInfo, bool) {
        let level = (self.nested_level - 1) as usize;
        (IntrMaskingInfo { nested_level: level, ..self }, level == 0 && self.sie_before_masking)
    }

    /// No borrow open.
    pub fn new() -> (info: Self)
        ensures
            info.nested_level == 0,
            !info.sie_before_masking,
    {
        IntrMaskingInfo { nested_level: 0, sie_before_masking: false }
    }

    /// Opens a borrow. `sie` is the interrupt-enable bit read just before the
    /// caller masked interrupts; only the outermost borrow remembers it.
    pub fn enter(&mut self, sie: bool)
        requires
            old(self).nested_level < usize::MAX,
        ensures
            *final(self) == old(self).enter_spec(sie),
    {
        if self.nested_level == 0 {
            self.sie_before_masking = sie;
        }
        self.nested_level += 1;
    }

    /// Closes a borrow; returns whether interrupts must be enabled again,
    /// which is when the outermost borrow closes and interrupts were enabled
    /// before it opened.
    pub fn exit(&mut self) -> (enable: bool)
        requires
            old(self).nested_level > 0,
        ensures
            (*final(self), enable) == old(self).exit_spec(),
    {
        self.nested_level -= 1;
        self.nested_level == 0 && self.sie_before_masking
    }
}

/// The state after borrows open one after the other, the `i`-th with
/// interrupt-enable bit `sies[i]`.
pub open spec fn enter_all(s: IntrMaskingInfo, sies: Seq<bool>) -> IntrMaskingInfo
    decreases sies.len(),
{
    if sies.len() == 0 {
        s
    } else {
        enter_all(s, sies.drop_last()).enter_spec(sies.last())
    }
}

/// The state after `n` borrows close one after the other, and for each
/// close whether interrupts are enabled again.
pub open spec fn exit_all(s: IntrMaskingInfo, n: nat) -> (IntrMaskingInfo, Seq<bool>)
    decreases n,
{
    if n == 0 {
        (s, Seq::empty())
    } else {
        let (s1, e) = s.exit_spec();
        let (s2, rest) = exit_all(s1, (n - 1) as nat);
        (s2, seq![e] + rest)
    }
}

/// Opening borrows from none open leaves as many open, remembering the bit
/// of the first.
proof fn lemma_enter_all(s: IntrMaskingInfo, sies: Seq<bool>)
    requires
        s.nested_level == 0,
        1 <= sies.len() < usize::MAX,
    ensures
        enter_all(s, sies).nested_level == sies.len(),
        enter_all(s, sies).sie_before_masking == sies[0],
    decreases sies.len(),
{
    let prev = sies.drop_last();
    assert(enter_all(s, sies) == enter_all(s, prev).enter_spec(sies.last()));
    if sies.len() > 1 {
        lemma_enter_all(s, prev);
        assert(prev[0] == sies[0]);
    } else {
        assert(enter_all(s, prev) == s);
    }
}

/// Closing all `n` open borrows enables interrupts only at the last close,
/// and then exactly when they were enabled before the outermost opened.
proof fn lemma_exit_all(s: IntrMaskingInfo, n: nat)
    requires
        n >= 1,
        s.nested_level == n,
    ensures
        exit_all(s, n).0.nested_level == 0,
        exit_all(s, n).1.len() == n,
        exit_all(s, n).1[n - 1] == s.sie_before_masking,
        forall|i: int| 0 <= i < n - 1 ==> !#[trigger] exit_all(s, n).1[i],
    decreases n,
{
    let (s1, e) = s.exit_spec();
    assert(exit_all(s, n).0 == exit_all(s1, (n - 1) as nat).0);
    assert(exit_all(s, n).1 == seq![e] + exit_all(s1, (n - 1) as nat).1);
    if n == 1 {
        assert(exit_all(s1, 0) == (s1, Seq::<bool>::empty()));
    } else {
        lemma_exit_all(s1, (n - 1) as nat);
        let rest = exit_all(s1, (n - 1) as nat).1;
        assert forall|i: int| 0 <= i < n - 1 implies !#[trigger] exit_all(s, n).1[i] by {
            if i > 0 {
                assert(exit_all(s, n).1[i] == rest[i - 1]);
            }
        }
    }
}

/// Law: interrupt masking nests to any depth. Opening `n >= 1` borrows from
/// none open, the outermost with interrupt-enable bit `sies[0]` and the inner
/// ones with any bits, and then closing all of them enables interrupts at no
/// close but the last, and at the last exactly when `sies[0]` is set; no
/// borrow is left open.
pub proof fn lemma_masking_nests_deeply(s: IntrMaskingInfo, sies: Seq<bool>)
    requires
        s.nested_level == 0,
        1 <= sies.len() < usize::MAX,
    ensures
        ({
            let (e, enables) = exit_all(enter_all(s, sies), sies.len());
            &&& e.nested_level == 0
            &&& enables.len() == sies.len()
            &&& enables.last() == sies[0]
            &&& forall|i: int| 0 <= i < sies.len() - 1 ==> !#[trigger] enables[i]
        }),
{
    lemma_enter_all(s, sies);
    lemma_exit_all(enter_all(s, sies), sies.len());
}

/// Law: between an outermost borrow's opening and closing, any number of
/// inner borrows open and close without enabling interrupts, and closing the
/// outermost borrow enables interrupts exactly when they were enabled before
/// it opened. Stated for one inner borrow.
pub proof fn lemma_masking_nests(s: IntrMaskingInfo, sie_outer: bool, sie_inner: bool)
    requires
        s.nested_level == 0,
    ensures
        ({
            let s1 = s.enter_spec(sie_outer);
            let s2 = s1.enter_spec(sie_inner);
            let (s3, inner_enables) = s2.exit_spec();
            let (s4, outer_enables) = s3.exit_spec();
            &&& !inner_enables
            &&& outer_enables == sie_outer
            &&& s4.nested_level == 0
        }),
{
}

} // verus!
