use vstd::prelude::*;
use vstd::string::*;
use crate::tile::Multiplier;

verus! {

/// The multiplier that a reference image's two-letter code names.
pub open spec fn multiplier_of_code(s: Seq<char>) -> Option<Multiplier> {
    if s == seq!['d', 'l'] {
        Some(Multiplier::Letter(2))
    } else if s == seq!['t', 'l'] {
        Some(Multiplier::Letter(3))
    } else if s == seq!['d', 'w'] {
        Some(Multiplier::Word(2))
    } else if s == seq!['t', 'w'] {
        Some(Multiplier::Word(3))
    } else if s == seq!['u', 'n'] {
        Some(Multiplier::Unmultiplied)
    } else {
        None
    }
}

impl Multiplier {
    /// Reads `dl`, `tl` (double, triple letter), `dw`, `tw` (double, triple word) or `un`.
    pub fn from_code(code: &str) -> (m: Option<Multiplier>)
        ensures
            m == multiplier_of_code(code@),
    {
        if code.unicode_len() != 2 {
            return None;
        }
        let a = code.get_char(0);
        let b = code.get_char(1);
        assert(code@ =~= seq![a, b]);
        match (a, b) {
            ('d', 'l') => Some(Multiplier::Letter(2)),
            ('t', 'l') => Some(Multiplier::Letter(3)),
            ('d', 'w') => Some(Multiplier::Word(2)),
            ('t', 'w') => Some(Multiplier::Word(3)),
            ('u', 'n') => Some(Multiplier::Unmultiplied),
            _ => None,
        }
    }
}

/// `i` is the first index of least distance, and that distance is below `limit`.
pub open spec fn is_nearest(dists: Seq<u32>, limit: u32, i: int) -> bool {
    &&& 0 <= i < dists.len()
    &&& dists[i] < limit
    &&& forall|j: int| 0 <= j < dists.len() ==> dists[i] <= #[trigger] dists[j]
    &&& forall|j: int| 0 <= j < i ==> dists[i] < #[trigger] dists[j]
}

/// The reference closest to a sample, given the sample's distance to each reference: the
/// first of least distance, if that distance is below `limit`.
pub fn nearest(dists: &Vec<u32>, limit: u32) -> (r: Option<usize>)
    ensures
        r matches Some(i) ==> is_nearest(dists@, limit, i as int),
        r is None <==> forall|j: int| 0 <= j < dists@.len() ==> #[trigger] dists@[j] >= limit,
{
    let mut best: Option<usize> = None;
    let mut best_dist: u32 = limit;
    let mut k: usize = 0;
    while k < dists.len()
        invariant
            k <= dists@.len(),
            best is None ==> best_dist == limit,
            best is None <==> forall|j: int| 0 <= j < k ==> #[trigger] dists@[j] >= limit,
            best matches Some(i) ==> i < k && dists@[i as int] == best_dist && best_dist < limit,
            best matches Some(i) ==> forall|j: int| 0 <= j < i ==> best_dist < #[trigger] dists@[j],
            forall|j: int| 0 <= j < k ==> best_dist <= #[trigger] dists@[j],
        decreases dists@.len() - k,
    {
        if dists[k] < best_dist {
            best_dist = dists[k];
            best = Some(k);
        }
        k += 1;
    }
    best
}

} // verus!
