//! The dedup state: the last-seen text and the last-seen image hash, used
//! to suppress echo loops and redundant retransmission.
//!
//! Both the change-detection tick (local clipboard reads) and the apply
//! path (remote content) consult and update the same fields. This dual
//! gate is what prevents an infinite relay loop between peers: after any
//! successful apply-or-send of content, the matching field holds that
//! content's identity, so the same content is never sent twice in a row
//! nor applied twice in a row.

use vstd::prelude::*;
use crate::util::{bytes_eq, clone_bytes};

verus! {

/// Mathematical image of the dedup state.
pub struct DedupView {
    pub last_text: Seq<u8>,
    pub last_image_hash: Seq<u8>,
}

/// Last-seen text content and last-seen image content-hash.
pub struct DedupState {
    last_text: Vec<u8>,
    last_image_hash: Vec<u8>,
}

impl View for DedupState {
    type V = DedupView;

    closed spec fn view(&self) -> DedupView {
        DedupView { last_text: self.last_text@, last_image_hash: self.last_image_hash@ }
    }
}

/// Whether a remote text differs from the last-seen one, and so is applied.
pub open spec fn spec_applies_text(d: DedupView, t: Seq<u8>) -> bool {
    d.last_text != t
}

/// The dedup state after a remote text is offered.
pub open spec fn spec_apply_text(d: DedupView, t: Seq<u8>) -> DedupView {
    if spec_applies_text(d, t) {
        DedupView { last_text: t, last_image_hash: d.last_image_hash }
    } else {
        d
    }
}

/// Whether a locally observed image hash triggers a share: the field is
/// still empty, or the hash changed.
pub open spec fn spec_shares_image(d: DedupView, h: Seq<u8>) -> bool {
    d.last_image_hash.len() == 0 || d.last_image_hash != h
}

/// Whether a fully reassembled remote image differs from the last-seen
/// one, and so is applied; a matching hash is our own echoed content.
pub open spec fn spec_applies_image(d: DedupView, h: Seq<u8>) -> bool {
    d.last_image_hash != h
}

/// The dedup state once an image with the given hash is adopted.
pub open spec fn spec_record_image(d: DedupView, h: Seq<u8>) -> DedupView {
    DedupView { last_text: d.last_text, last_image_hash: h }
}

impl DedupState {
    /// The empty state a node starts with: nothing seen yet.
    pub fn new() -> (r: DedupState)
        ensures
            r@.last_text == Seq::<u8>::empty(),
            r@.last_image_hash == Seq::<u8>::empty(),
    {
        let r = DedupState { last_text: Vec::new(), last_image_hash: Vec::new() };
        proof {
            assert(r@.last_text =~= Seq::<u8>::empty());
            assert(r@.last_image_hash =~= Seq::<u8>::empty());
        }
        r
    }

    /// Decide a remote text: adopt it and answer `true` exactly when it
    /// differs from the last-seen text; the caller then writes it to the
    /// clipboard.
    pub fn handle_incoming_txt(&mut self, text: &Vec<u8>) -> (apply: bool)
        ensures
            apply == spec_applies_text(old(self)@, text@),
            final(self)@ == spec_apply_text(old(self)@, text@),
    {
        if bytes_eq(&self.last_text, text) {
            false
        } else {
            self.last_text = clone_bytes(text);
            true
        }
    }

    /// Decide a local clipboard text read: record it and answer `true`
    /// exactly when it differs from the last-seen text; the caller then
    /// fans it out to every peer.
    pub fn observe_local_text(&mut self, text: &Vec<u8>) -> (share: bool)
        ensures
            share == spec_applies_text(old(self)@, text@),
            final(self)@ == spec_apply_text(old(self)@, text@),
    {
        if bytes_eq(&self.last_text, text) {
            false
        } else {
            self.last_text = clone_bytes(text);
            true
        }
    }

    /// Decide a local clipboard image read: record its hash and answer
    /// `true` exactly when the hash field was still empty or changed; the
    /// caller then fans the image out to every peer.
    pub fn observe_local_image(&mut self, hash: &Vec<u8>) -> (share: bool)
        ensures
            share == spec_shares_image(old(self)@, hash@),
            share ==> final(self)@ == spec_record_image(old(self)@, hash@),
            !share ==> final(self)@ == old(self)@,
    {
        if self.last_image_hash.len() == 0 || !bytes_eq(&self.last_image_hash, hash) {
            self.last_image_hash = clone_bytes(hash);
            true
        } else {
            false
        }
    }

    /// Decide a fully reassembled remote image: adopt its hash and answer
    /// `true` exactly when it differs from the last-seen one; the caller
    /// then writes the image to the clipboard.
    pub fn note_remote_image(&mut self, hash: &Vec<u8>) -> (apply: bool)
        ensures
            apply == spec_applies_image(old(self)@, hash@),
            apply ==> final(self)@ == spec_record_image(old(self)@, hash@),
            !apply ==> final(self)@ == old(self)@,
    {
        if bytes_eq(&self.last_image_hash, hash) {
            false
        } else {
            self.last_image_hash = clone_bytes(hash);
            true
        }
    }
}

/// Applying one remote text and then a different one leaves the state at
/// the second text, which is applied to the clipboard; offering that same
/// text again is a no-op.
pub proof fn lemma_text_apply_then_reapply(d: DedupView, t1: Seq<u8>, t2: Seq<u8>)
    requires
        t1 != t2,
    ensures
        ({
            let d1 = spec_apply_text(d, t1);
            let d2 = spec_apply_text(d1, t2);
            &&& d1.last_text == t1
            &&& spec_applies_text(d1, t2)
            &&& d2.last_text == t2
            &&& !spec_applies_text(d2, t2)
            &&& spec_apply_text(d2, t2) == d2
        }),
{
}

/// After adopting content, the same content is suppressed on every path:
/// a just-applied text is neither re-applied nor re-shared, and a
/// just-recorded image hash (never empty: a digest rendering) is neither
/// re-applied nor re-shared.
pub proof fn lemma_no_echo(d: DedupView, t: Seq<u8>, h: Seq<u8>)
    requires
        h.len() > 0,
    ensures
        !spec_applies_text(spec_apply_text(d, t), t),
        !spec_applies_image(spec_record_image(d, h), h),
        !spec_shares_image(spec_record_image(d, h), h),
{
}

} // verus!
