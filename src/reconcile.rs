//! The decision of each reconciliation cycle: apply the new script only when
//! it differs from the one the previous cycle settled on.
use vstd::prelude::*;
use crate::config::CellView;
use crate::rules::{lemma_changed_ip_changes_script, script_text};

verus! {

/// Whether a cycle whose script is `candidate` applies it, after a cycle
/// that settled on `last`.
pub open spec fn should_apply(last: Seq<char>, candidate: Seq<char>) -> bool {
    candidate != last
}

/// The script a cycle settles on: its own, whether or not applying it
/// succeeded.
pub open spec fn settled_script(last: Seq<char>, candidate: Seq<char>) -> Seq<char> {
    candidate
}

/// State carried from one cycle to the next: the script of the last cycle.
pub struct Reconciler {
    latest_script: String,
}

impl View for Reconciler {
    type V = Seq<char>;

    closed spec fn view(&self) -> Seq<char> {
        self.latest_script@
    }
}

impl Reconciler {
    /// State before the first cycle: no script yet.
    pub fn new() -> (r: Self)
        ensures
            r@ == Seq::<char>::empty(),
    {
        Reconciler { latest_script: String::new() }
    }

    /// The script of the last cycle.
    pub fn latest_script(&self) -> (r: &str)
        ensures
            r@ == self@,
    {
        self.latest_script.as_str()
    }

    /// Takes the script of a new cycle: returns whether it must be applied
    /// (it differs from the last one), and keeps it as the last script.
    pub fn observe(&mut self, candidate: String) -> (apply: bool)
        ensures
            apply == should_apply(old(self)@, candidate@),
            final(self)@ == settled_script(old(self)@, candidate@),
    {
        let apply = !(candidate == self.latest_script);
        self.latest_script = candidate;
        apply
    }
}

/// Two cycles in a row with the same entries and the same addresses apply
/// at most once: the second cycle applies nothing.
pub proof fn lemma_steady_inputs_apply_once(
    last: Seq<char>,
    cells: Seq<CellView>,
    ips: Seq<Seq<char>>,
    eth: Seq<char>,
    local: Seq<char>,
)
    ensures
        ({
            let script = script_text(cells, ips, eth, local);
            !should_apply(settled_script(last, script), script)
        }),
{
}

/// With a known local address, when the address of one entry's host
/// changes from one cycle to the next, the next cycle applies again.
pub proof fn lemma_changed_ip_reapplies(
    last: Seq<char>,
    cells: Seq<CellView>,
    ips: Seq<Seq<char>>,
    eth: Seq<char>,
    local: Seq<char>,
    k: int,
    new_ip: Seq<char>,
)
    requires
        cells.len() == ips.len(),
        0 <= k < cells.len(),
        local.len() > 0,
        new_ip != ips[k],
    ensures
        ({
            let first = script_text(cells, ips, eth, local);
            let second = script_text(cells, ips.update(k, new_ip), eth, local);
            should_apply(settled_script(last, first), second)
        }),
{
    lemma_changed_ip_changes_script(cells, ips, eth, local, k, new_ip);
}

} // verus!
