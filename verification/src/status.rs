use vstd::prelude::*;
use std::rc::Rc;
use crate::paths::CrossPath;

verus! {

/// One ranked hit of a path search: its score, the character indices within
/// `display_path` at which the needle characters matched, the repository the
/// hit belongs to, and the path relative to that repository's root.
#[derive(Clone, Debug)]
pub struct PathSearchResult {
    pub score: i128,
    pub positions: Vec<usize>,
    pub repo_id: usize,
    pub relative_path: CrossPath,
    pub display_path: String,
}

pub ghost struct ResultView {
    pub score: int,
    pub positions: Seq<int>,
    pub repo_id: int,
    pub relative_path: Seq<Seq<char>>,
    pub display_path: Seq<char>,
}

impl View for PathSearchResult {
    type V = ResultView;

    open spec fn view(&self) -> ResultView {
        ResultView {
            score: self.score as int,
            positions: Seq::new(self.positions@.len(), |t: int| self.positions@[t] as int),
            repo_id: self.repo_id as int,
            relative_path: self.relative_path@,
            display_path: self.display_path@,
        }
    }
}

/// The one-shot status of a path search: `Pending` until the search publishes
/// its ranked results in a single `Ready` update.
#[derive(Clone, Debug)]
pub enum PathSearchStatus {
    Pending,
    Ready(Vec<PathSearchResult>),
}

#[verifier::external_type_specification]
#[verifier::external_body]
#[verifier::reject_recursive_types(T)]
pub struct ExRefCell<T: ?Sized>(core::cell::RefCell<T>);

/// Relies on `core::cell::RefCell::new`: wraps a value in a new cell.
pub assume_specification<T>[ core::cell::RefCell::<T>::new ](t: T) -> (r: core::cell::RefCell<T>);

/// The consumer's handle on a search: it owns the only strong reference to
/// the status cell, so dropping it is the cancellation signal. The ghost
/// field records the status the cell was created holding; what the cell
/// holds later is shared mutable state and stays outside the logic.
#[derive(Clone)]
pub struct SearchObserver {
    cell: Rc<core::cell::RefCell<PathSearchStatus>>,
    initial: Ghost<PathSearchStatus>,
}

/// The search's weak handle on the same cell: it can probe whether any
/// observer is still alive and publish a status while one is.
///
/// The field is hidden from verification: `std::rc::Weak` cannot be declared
/// here because of its allocator type parameter.
#[verifier::external_body]
pub struct WeakStatusCell {
    cell: std::rc::Weak<core::cell::RefCell<PathSearchStatus>>,
}

/// A fresh status cell holding `initial`, owned by the returned observer.
pub fn new_status_cell(initial: PathSearchStatus) -> (r: SearchObserver)
    ensures
        r.initial_status() == initial,
{
    let ghost recorded = initial;
    SearchObserver { cell: Rc::new(core::cell::RefCell::new(initial)), initial: Ghost(recorded) }
}

impl SearchObserver {
    /// The status this observer's cell was created holding.
    pub closed spec fn initial_status(&self) -> PathSearchStatus {
        self.initial@
    }

    /// The current status.
    ///
    /// Relies on `RefCell::borrow` and `PathSearchStatus::clone` (derived):
    /// reads the cell without changing it.
    #[verifier::external_body]
    pub fn get(&self) -> PathSearchStatus {
        self.cell.borrow().clone()
    }

    /// A weak handle on this observer's cell.
    ///
    /// Relies on `Rc::downgrade`: the weak handle does not keep the cell
    /// alive.
    #[verifier::external_body]
    pub fn weak_handle(&self) -> WeakStatusCell {
        WeakStatusCell { cell: Rc::downgrade(&self.cell) }
    }
}

/// A strong handle on a still-live status cell, held only while publishing.
struct StrongStatusCell {
    cell: Rc<core::cell::RefCell<PathSearchStatus>>,
}

/// Relies on `std::rc::Weak::upgrade`: yields a strong handle exactly when
/// at least one other strong reference is still alive.
#[verifier::external_body]
fn upgrade_status(w: &WeakStatusCell) -> Option<StrongStatusCell> {
    w.cell.upgrade().map(|cell| StrongStatusCell { cell })
}

/// Relies on `RefCell::replace`: stores `v` in the cell.
#[verifier::external_body]
fn store_status(target: &StrongStatusCell, v: PathSearchStatus) {
    let _ = target.cell.replace(v);
}

impl WeakStatusCell {
    /// Whether any observer still holds the cell.
    pub fn has_observers(&self) -> bool {
        upgrade_status(self).is_some()
    }

    /// Publishes `v` if any observer still holds the cell; reports whether it
    /// did.
    pub fn try_set(&self, v: PathSearchStatus) -> bool {
        match upgrade_status(self) {
            Some(target) => {
                store_status(&target, v);
                true
            },
            None => false,
        }
    }
}

} // verus!
