use vstd::prelude::*;

verus! {

/// Loss probabilities are counted in parts of this many.
pub const LOSS_SCALE: u32 = 1_000_000;

/// Relies on `rand::random_ratio`: `true` with probability
/// `numerator / denominator`; never when `numerator` is 0, always when it
/// equals `denominator`; it panics when `denominator` is 0 or smaller than
/// `numerator`.
pub assume_specification[ rand::random_ratio ](numerator: u32, denominator: u32) -> (r: bool)
    requires
        denominator > 0,
        numerator <= denominator,
    ensures
        numerator == 0 ==> !r,
        numerator == denominator ==> r,
;

/// Decides, item by item and independently, whether a lossy link drops what
/// passes through it.
#[derive(Debug, Clone, Copy)]
pub struct LossModel {
    loss: u32,
}

impl LossModel {
    /// Probability of a drop, in parts of `LOSS_SCALE`.
    pub closed spec fn spec_loss(&self) -> nat {
        self.loss as nat
    }

    pub closed spec fn wf(&self) -> bool {
        self.loss <= LOSS_SCALE
    }

    /// A link that drops each item with probability `loss / LOSS_SCALE`.
    pub fn new(loss: u32) -> (r: Self)
        requires
            loss <= LOSS_SCALE,
        ensures
            r.wf(),
            r.spec_loss() == loss,
    {
        LossModel { loss }
    }

    /// A link that drops nothing.
    pub fn lossless() -> (r: Self)
        ensures
            r.wf(),
            r.spec_loss() == 0,
    {
        LossModel { loss: 0 }
    }

    /// Probability of a drop, in parts of `LOSS_SCALE`.
    pub fn loss(&self) -> (r: u32)
        ensures
            r == self.spec_loss(),
    {
        self.loss
    }

    /// Draws whether the next item is dropped: never on a lossless link,
    /// always on one whose loss is `LOSS_SCALE`.
    pub fn drops(&self) -> (r: bool)
        requires
            self.wf(),
        ensures
            self.spec_loss() == 0 ==> !r,
            self.spec_loss() == LOSS_SCALE ==> r,
    {
        rand::random_ratio(self.loss, LOSS_SCALE)
    }
}

} // verus!
