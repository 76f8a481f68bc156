//! The interaction side of the leaf edit protocol: what the engine does
//! with widget events the host reports (a toggle clicked, a text edit
//! finished) and how stale widget displays are synced from cached values.
//! Edits recorded here are written into the source fields on the next
//! reconciliation pass; display syncs never touch a widget the user is
//! still editing.

use vstd::prelude::*;

use crate::keys::Key;
use crate::table::State;
use crate::table::record_pending_m;
use crate::table::request_refresh_m;
use crate::table::take_refresh_m;
use crate::text::from_text;
use crate::text::leaf_text;
use crate::text::to_text;
use crate::values::LeafV;
use crate::values::LeafValue;
use crate::values::leaf_kind_of;

verus! {

/// What became of a finished text edit.
#[derive(Debug, Clone, Copy, PartialEq, Eq, Structural)]
pub enum EditOutcome {
    /// The edited text parsed under the leaf's type; the value is recorded
    /// and will be written into the source field on the next pass.
    Recorded,
    /// The edited text did not parse; the edit is discarded, the field
    /// stays unchanged, and the edit session is closed.
    Discarded,
    /// The edit was cancelled; the widget's display is marked stale so the
    /// next sync rewrites it from the cached value.
    Cancelled,
    /// No leaf entry exists at the key.
    NoEntry,
}

/// Consumes a toggle widget's click: records the toggled boolean for
/// write-back on the next pass. Returns false, changing nothing, when no
/// leaf entry exists at the key.
pub fn update_checkbox(st: &mut State, key: &Key, checked: bool) -> (r: bool)
    requires
        old(st).wf(),
    ensures
        final(st).wf(),
        (final(st)@, r) == record_pending_m(old(st)@, key@, LeafV::Bool(checked)),
{
    st.record_pending(key, LeafValue::Bool(checked))
}

/// Syncs a stale toggle widget: if the leaf's display is stale, returns
/// the boolean it must now show and lowers the stale flag. `None` when
/// nothing is to be done, or when the cached value is not a boolean (the
/// flag is still consumed then, as the widget cannot display the value).
pub fn sync_checkbox(st: &mut State, key: &Key) -> (r: Option<bool>)
    requires
        old(st).wf(),
    ensures
        final(st).wf(),
        ({
            let (st2, taken) = take_refresh_m(old(st)@, key@);
            &&& final(st)@ == st2
            &&& r == match taken {
                Some(LeafV::Bool(b)) => Some(b),
                _ => None::<bool>,
            }
        }),
{
    match st.take_refresh(key) {
        Some(LeafValue::Bool(b)) => Some(b),
        _ => None,
    }
}

/// Consumes a finished text edit of a leaf's text box. A cancelled edit
/// only marks the display stale (restoring the shown text on the next
/// sync). Otherwise the edited text is parsed under the cached value's
/// type: on success the typed value is recorded for write-back; on
/// failure the edit is discarded and the field left unchanged.
///
/// Editing the text to the canonical text of a value `v` of the leaf's
/// type always records exactly `v` (the round-trip law of `from_text`).
pub fn update_inputbox(st: &mut State, key: &Key, text: &str, cancelled: bool) -> (r: EditOutcome)
    requires
        old(st).wf(),
    ensures
        final(st).wf(),
        cancelled ==> ({
            let (st2, ok) = request_refresh_m(old(st)@, key@);
            &&& final(st)@ == st2
            &&& r == (if ok {
                EditOutcome::Cancelled
            } else {
                EditOutcome::NoEntry
            })
        }),
        !cancelled ==> ({
            match crate::table::leaf_cached_kind(old(st)@, key@) {
                Some(kind) => {
                    &&& (forall|v: LeafV|
                        leaf_kind_of(v) == kind && text@ == leaf_text(v) ==> (final(st)@, r)
                            == (record_pending_m(old(st)@, key@, v).0, EditOutcome::Recorded))
                    &&& (r == EditOutcome::Discarded ==> final(st)@ == old(st)@)
                    &&& (r == EditOutcome::Recorded ==> exists|v: LeafV|
                        leaf_kind_of(v) == kind && (final(st)@, true) == record_pending_m(
                            old(st)@,
                            key@,
                            v,
                        ))
                    &&& (r == EditOutcome::Recorded || r == EditOutcome::Discarded)
                },
                None => {
                    &&& final(st)@ == old(st)@
                    &&& r == EditOutcome::NoEntry
                },
            }
        }),
{
    if cancelled {
        let ok = st.request_refresh(key);
        if ok {
            EditOutcome::Cancelled
        } else {
            EditOutcome::NoEntry
        }
    } else {
        match st.cached_kind(key) {
            Some(kind) => match from_text(kind, text) {
                Some(v) => {
                    proof {
                        crate::table::lemma_wf_leaf_kinds(*old(st), key@);
                    }
                    st.record_pending(key, v);
                    EditOutcome::Recorded
                },
                None => EditOutcome::Discarded,
            },
            None => EditOutcome::NoEntry,
        }
    }
}

/// Syncs a stale text box, but never one the user is editing: with
/// `focused` set, nothing happens and nothing is returned, whatever the
/// entry holds — an external field change may not clobber in-flight
/// keystrokes. Otherwise, if the leaf's display is stale, returns the
/// canonical text it must now show and lowers the stale flag.
pub fn update_inputbox_display(st: &mut State, key: &Key, focused: bool) -> (r: Option<String>)
    requires
        old(st).wf(),
    ensures
        final(st).wf(),
        focused ==> final(st)@ == old(st)@ && r is None,
        !focused ==> ({
            let (st2, taken) = take_refresh_m(old(st)@, key@);
            &&& final(st)@ == st2
            &&& match taken {
                Some(v) => r matches Some(s) && s@ == leaf_text(v),
                None => r is None,
            }
        }),
{
    if focused {
        return None;
    }
    match st.take_refresh(key) {
        Some(v) => Some(to_text(&v)),
        None => None,
    }
}

} // verus!
