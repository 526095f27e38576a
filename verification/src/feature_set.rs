//! The feature sets that a network can be trained on.

use vstd::prelude::*;
use vstd::string::*;

verus! {

/// A feature set: which pieces are seen, and how the king's square is used.
#[derive(Clone, Copy, Debug, PartialEq, Eq, Structural)]
pub enum FeatureSet {
    HalfKp,
    HalfKaSplit,
    HalfKaMerged,
    HalfKaHmSplit,
    HalfKaHmMerged,
}

impl FeatureSet {
    /// The name of the feature set in arguments and metadata.
    pub open spec fn name_text(self) -> Seq<char> {
        match self {
            FeatureSet::HalfKp => "halfkp"@,
            FeatureSet::HalfKaSplit => "halfka-split"@,
            FeatureSet::HalfKaMerged => "halfka-merged"@,
            FeatureSet::HalfKaHmSplit => "halfka-hm-split"@,
            FeatureSet::HalfKaHmMerged => "halfka-hm-merged"@,
        }
    }

    /// The name of the feature set in arguments and metadata.
    pub fn canonical_name(self) -> (r: &'static str)
        ensures
            r@ == self.name_text(),
    {
        match self {
            FeatureSet::HalfKp => "halfkp",
            FeatureSet::HalfKaSplit => "halfka-split",
            FeatureSet::HalfKaMerged => "halfka-merged",
            FeatureSet::HalfKaHmSplit => "halfka-hm-split",
            FeatureSet::HalfKaHmMerged => "halfka-hm-merged",
        }
    }

    /// The feature set of a name.
    pub fn from_canonical_name(name: &str) -> (r: Option<Self>)
        ensures
            match r {
                Some(set) => set.name_text() == name@,
                None => forall|set: Self| #[trigger] set.name_text() != name@,
            },
            forall|set: Self| #[trigger] set.name_text() == name@ ==> r == Some(set),
    {
        proof {
            reveal_strlit("halfkp");
            reveal_strlit("halfka-split");
            reveal_strlit("halfka-merged");
            reveal_strlit("halfka-hm-split");
            reveal_strlit("halfka-hm-merged");
            // No two names have the same length.
            assert forall|set: Self| (#[trigger] set.name_text()).len() == match set {
                FeatureSet::HalfKp => 6nat,
                FeatureSet::HalfKaSplit => 12,
                FeatureSet::HalfKaMerged => 13,
                FeatureSet::HalfKaHmSplit => 15,
                FeatureSet::HalfKaHmMerged => 16,
            } by {}
        }
        let name: String = name.to_owned();
        if name == "halfkp".to_owned() {
            Some(FeatureSet::HalfKp)
        } else if name == "halfka-split".to_owned() {
            Some(FeatureSet::HalfKaSplit)
        } else if name == "halfka-merged".to_owned() {
            Some(FeatureSet::HalfKaMerged)
        } else if name == "halfka-hm-split".to_owned() {
            Some(FeatureSet::HalfKaHmSplit)
        } else if name == "halfka-hm-merged".to_owned() {
            Some(FeatureSet::HalfKaHmMerged)
        } else {
            None
        }
    }

    /// The piece numbers that a feature set tells apart: none for kings, one plane for each of
    /// them, or one plane that they share.
    pub open spec fn inputs(self) -> int {
        match self {
            FeatureSet::HalfKp => 1548,
            FeatureSet::HalfKaSplit | FeatureSet::HalfKaHmSplit => 1710,
            FeatureSet::HalfKaMerged | FeatureSet::HalfKaHmMerged => 1629,
        }
    }

    /// The piece numbers that a feature set tells apart.
    pub fn piece_inputs(self) -> (r: usize)
        ensures
            r == self.inputs(),
    {
        match self {
            FeatureSet::HalfKp => 1548,
            FeatureSet::HalfKaSplit | FeatureSet::HalfKaHmSplit => 1710,
            FeatureSet::HalfKaMerged | FeatureSet::HalfKaHmMerged => 1629,
        }
    }
}

/// The feature sets differ by the planes of the kings: none, one that both share, or one each.
/// Mirroring the board changes nothing of that.
pub proof fn kings_add_planes(set: FeatureSet)
    ensures
        FeatureSet::HalfKaMerged.inputs() == FeatureSet::HalfKp.inputs() + 81,
        FeatureSet::HalfKaSplit.inputs() == FeatureSet::HalfKp.inputs() + 2 * 81,
        FeatureSet::HalfKaHmMerged.inputs() == FeatureSet::HalfKaMerged.inputs(),
        FeatureSet::HalfKaHmSplit.inputs() == FeatureSet::HalfKaSplit.inputs(),
        FeatureSet::HalfKp.inputs() == 90 + 18 * 81,
{
}

/// The name of a feature set tells what it is made of: `ka` where the kings have planes, `hm` where
/// the board is mirrored, and whether the kings share a plane or have one each.
pub proof fn names_tell_the_features(set: FeatureSet)
    ensures
        ({
            let name = set.name_text();
            let planes = set.inputs() - FeatureSet::HalfKp.inputs();
            &&& name.len() >= 6
            &&& name.take(5) == "halfk"@
            &&& name[5] == 'p' <==> planes == 0
            &&& name[5] == 'a' <==> planes > 0
            &&& planes == 81 <==> name.len() >= 7 && name.skip(name.len() - 7) == "-merged"@
            &&& planes == 162 <==> name.skip(name.len() - 6) == "-split"@
            &&& set == FeatureSet::HalfKaHmSplit || set == FeatureSet::HalfKaHmMerged
                <==> name.len() >= 9 && name.subrange(6, 9) == "-hm"@
        }),
{
    reveal_strlit("halfkp");
    reveal_strlit("halfka-split");
    reveal_strlit("halfka-merged");
    reveal_strlit("halfka-hm-split");
    reveal_strlit("halfka-hm-merged");
    reveal_strlit("halfk");
    reveal_strlit("-merged");
    reveal_strlit("-split");
    reveal_strlit("-hm");
    let name = set.name_text();
    assert(name.take(5) =~= "halfk"@);
    if set == FeatureSet::HalfKp {
        assert(name.skip(name.len() - 6)[0] == 'h');
    } else if set == FeatureSet::HalfKaSplit || set == FeatureSet::HalfKaHmSplit {
        assert(name.skip(name.len() - 6) =~= "-split"@);
        assert(name.skip(name.len() - 7)[1] == '-');
        if set == FeatureSet::HalfKaHmSplit {
            assert(name.subrange(6, 9) =~= "-hm"@);
        } else {
            assert(name.subrange(6, 9)[1] == 's');
        }
    } else {
        assert(name.skip(name.len() - 7) =~= "-merged"@);
        assert(name.skip(name.len() - 6)[0] == 'm');
        if set == FeatureSet::HalfKaHmMerged {
            assert(name.subrange(6, 9) =~= "-hm"@);
        } else {
            assert(name.subrange(6, 9)[1] == 'm' && name.subrange(6, 9)[2] == 'e');
        }
    }
}

} // verus!
