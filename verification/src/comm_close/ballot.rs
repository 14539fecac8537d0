//! Rounds that consist of a ballot and a phase.

use super::round::{RoundEnum, RoundKey};
use vstd::prelude::*;

verus! {

/// The levels: a ballot is divided into phases.
#[derive(Clone, Copy, Debug, PartialEq, Eq, Structural, Hash)]
pub enum BallotLevel {
    Ballot,
    Phase,
}

impl RoundKey for BallotLevel {
    open spec fn kind() -> u64 {
        1
    }

    open spec fn keys() -> usize {
        2
    }

    open spec fn place(self) -> usize {
        match self {
            BallotLevel::Ballot => 0,
            BallotLevel::Phase => 1,
        }
    }

    open spec fn title(self) -> &'static str {
        match self {
            BallotLevel::Ballot => "Ballot",
            BallotLevel::Phase => "Phase",
        }
    }

    fn key_type() -> (k: u64) {
        1
    }

    fn count() -> (n: usize) {
        2
    }

    fn index(self) -> (i: usize) {
        match self {
            BallotLevel::Ballot => 0,
            BallotLevel::Phase => 1,
        }
    }

    fn name(self) -> (s: &'static str) {
        match self {
            BallotLevel::Ballot => "Ballot",
            BallotLevel::Phase => "Phase",
        }
    }
}

/// The phases of a ballot.
#[derive(Clone, Copy, Debug, PartialEq, Eq, Structural, Hash)]
pub enum BallotPhase {
    Propose,
    Vote,
    Decide,
}

impl RoundEnum for BallotPhase {
    open spec fn kind() -> u64 {
        1
    }

    open spec fn title() -> &'static str {
        "BallotPhase"
    }

    open spec fn lowest() -> BallotPhase {
        BallotPhase::Propose
    }

    open spec fn steps() -> u32 {
        3
    }

    open spec fn code(self) -> u32 {
        match self {
            BallotPhase::Propose => 0,
            BallotPhase::Vote => 1,
            BallotPhase::Decide => 2,
        }
    }

    open spec fn decoded(v: u32) -> Option<BallotPhase> {
        if v == 0 {
            Some(BallotPhase::Propose)
        } else if v == 1 {
            Some(BallotPhase::Vote)
        } else if v == 2 {
            Some(BallotPhase::Decide)
        } else {
            None
        }
    }

    open spec fn all_codes() -> Seq<u32> {
        seq![0u32, 1u32, 2u32]
    }

    proof fn law_codes_decode() {
        assert(Self::all_codes()[0] == 0 && Self::all_codes()[1] == 1 && Self::all_codes()[2]
            == 2);
    }

    fn enum_type() -> (k: u64) {
        1
    }

    fn name() -> (s: &'static str) {
        "BallotPhase"
    }

    fn low() -> (e: BallotPhase) {
        BallotPhase::Propose
    }

    fn size() -> (n: u32) {
        3
    }

    fn to_u32(self) -> (v: u32) {
        match self {
            BallotPhase::Propose => 0,
            BallotPhase::Vote => 1,
            BallotPhase::Decide => 2,
        }
    }

    fn try_from_u32(v: u32) -> (r: Option<BallotPhase>) {
        if v == 0 {
            Some(BallotPhase::Propose)
        } else if v == 1 {
            Some(BallotPhase::Vote)
        } else if v == 2 {
            Some(BallotPhase::Decide)
        } else {
            None
        }
    }

    fn codes() -> (r: Vec<u32>) {
        let mut r: Vec<u32> = Vec::new();
        r.push(0);
        r.push(1);
        r.push(2);
        assert(r@ =~= Self::all_codes());
        proof {
            Self::law_codes_decode();
        }
        r
    }
}

} // verus!
