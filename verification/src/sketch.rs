//! The common sketch interface and merge-compatibility metadata.

use vstd::prelude::*;
use vstd::string::*;

use crate::error::{SketchError, SketchErrorView};
use crate::hash::HashSpec;
use crate::text::{debug_text, dec, push_decimal, quoted};

verus! {

/// Everything that must match for two sketch instances to merge: same
/// algorithm, version, hash family and seed, and parameters.
#[derive(Debug, Clone)]
pub struct SketchCompatibility {
    pub algorithm: String,
    pub version: u16,
    pub hash: HashSpec,
    /// Hash of the parameter tuple (width, depth, precision, capacity...).
    pub params_hash: u64,
}

/// The mathematical content of a [`SketchCompatibility`].
pub ghost struct Compat {
    pub algorithm: Seq<char>,
    pub version: u16,
    pub hash: HashSpec,
    pub params_hash: u64,
}

impl View for SketchCompatibility {
    type V = Compat;

    open spec fn view(&self) -> Compat {
        Compat {
            algorithm: self.algorithm@,
            version: self.version,
            hash: self.hash,
            params_hash: self.params_hash,
        }
    }
}

impl Compat {
    /// How a descriptor is shown in messages.
    pub open spec fn shown(self) -> Seq<char> {
        "SketchCompatibility { algorithm: "@ + debug_text(self.algorithm) + ", version: "@ + dec(
            self.version as nat,
        ) + ", hash: HashSpec { family: Fsk1, seed: "@ + dec(self.hash.seed as nat)
            + ", version: "@ + dec(self.hash.version as nat) + " }, params_hash: "@ + dec(
            self.params_hash as nat,
        ) + " }"@
    }

    /// The refusal to merge a sketch described by `other` into one described
    /// by `self`.
    pub open spec fn refusal(self, other: Compat) -> SketchErrorView {
        SketchErrorView::IncompatibleMerge(
            "sketches are not merge-compatible: "@ + self.shown() + " vs "@ + other.shown(),
        )
    }
}

impl SketchCompatibility {
    /// Refuses unless the two descriptors are equal.
    pub fn ensure_matches(&self, other: &SketchCompatibility) -> (r: Result<(), SketchError>)
        ensures
            r is Ok <==> self@ == other@,
            r matches Err(e) ==> e@ == self@.refusal(other@),
    {
        if self.algorithm == other.algorithm && self.version == other.version && self.hash
            == other.hash && self.params_hash == other.params_hash {
            return Ok(());
        }
        let mut message = "sketches are not merge-compatible: ".to_owned();
        message.append(self.shown().as_str());
        message.append(" vs ");
        message.append(other.shown().as_str());
        Err(SketchError::IncompatibleMerge(message))
    }

    fn shown(&self) -> (r: String)
        ensures
            r@ == self@.shown(),
    {
        let mut out = "SketchCompatibility { algorithm: ".to_owned();
        out.append(quoted(self.algorithm.as_str()).as_str());
        out.append(", version: ");
        push_decimal(&mut out, self.version as u64);
        out.append(", hash: HashSpec { family: Fsk1, seed: ");
        push_decimal(&mut out, self.hash.seed);
        out.append(", version: ");
        push_decimal(&mut out, self.hash.version as u64);
        out.append(" }, params_hash: ");
        push_decimal(&mut out, self.params_hash);
        out.append(" }");
        out
    }
}

/// The interface that every sketch speaks, over byte keys and unsigned
/// weights, so that sketches can be windowed, sharded and merged uniformly.
pub trait Sketch: Sized {
    /// The representation is consistent.
    spec fn wf(&self) -> bool;

    /// What [`Sketch::compatibility`] describes.
    spec fn compat(&self) -> Compat;

    /// The update fits into the counters.
    spec fn update_fits(&self, key: Seq<u8>, value: u64) -> bool;

    /// `after` is `self` with the update applied.
    spec fn is_updated(&self, key: Seq<u8>, value: u64, after: &Self) -> bool;

    /// The merge fits into the counters.
    spec fn merge_fits(&self, other: &Self) -> bool;

    /// `after` is `self` with `other` merged in.
    spec fn is_merged(&self, other: &Self, after: &Self) -> bool;

    /// `after` is `self` without any content.
    spec fn is_cleared(&self, after: &Self) -> bool;

    /// Updates applied since creation or reset.
    spec fn updates(&self) -> u64;

    /// The number of bytes held can be computed in machine words.
    spec fn memory_fits(&self) -> bool;

    /// What is known of the number of bytes held.
    spec fn is_memory(&self, bytes: usize) -> bool;

    /// Add `value` weight for `key`.
    fn update(&mut self, key: &[u8], value: u64)
        requires
            old(self).wf(),
            old(self).update_fits(key@, value),
        ensures
            final(self).wf(),
            final(self).compat() == old(self).compat(),
            old(self).is_updated(key@, value, final(self)),
    ;

    /// Merge `other` into `self`. Refused, with `self` unchanged, unless the
    /// two descriptors are equal.
    fn merge_from(&mut self, other: &Self) -> (r: Result<(), SketchError>)
        requires
            old(self).wf(),
            other.wf(),
            old(self).compat() == other.compat() ==> old(self).merge_fits(other),
        ensures
            final(self).wf(),
            final(self).compat() == old(self).compat(),
            r is Ok <==> old(self).compat() == other.compat(),
            r is Ok ==> old(self).is_merged(other, final(self)),
            r matches Err(e) ==> e@ == old(self).compat().refusal(other.compat()) && *final(self)
                == *old(self),
    ;

    /// Bytes of memory currently held.
    fn memory_bytes(&self) -> (r: usize)
        requires
            self.wf(),
            self.memory_fits(),
        ensures
            self.is_memory(r),
    ;

    /// Clear all state, keeping configuration.
    fn reset(&mut self)
        requires
            old(self).wf(),
        ensures
            final(self).wf(),
            final(self).compat() == old(self).compat(),
            old(self).is_cleared(final(self)),
    ;

    /// Total updates applied since creation or reset.
    fn update_count(&self) -> (r: u64)
        ensures
            r == self.updates(),
    ;

    /// Descriptor used to validate merges across nodes.
    fn compatibility(&self) -> (r: SketchCompatibility)
        ensures
            r@ == self.compat(),
    ;
}

} // verus!
