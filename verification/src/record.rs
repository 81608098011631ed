//! The categorical record: four nominal features and the price bracket.

use vstd::prelude::*;

verus! {

#[derive(Debug, Clone, Copy, PartialEq, Eq, Structural)]
pub enum RoomType {
    PrivateRoom,
    EntireHomeApt,
    HotelRoom,
}

#[derive(Debug, Clone, Copy, PartialEq, Eq, Structural)]
pub enum BedRooms {
    One,
    Two,
    ThreeToFive,
    SixOrMore,
}

#[derive(Debug, Clone, Copy, PartialEq, Eq, Structural)]
pub enum Popularity {
    Level1,
    Level2,
    Level3,
    Level4,
    Level5,
}

#[derive(Debug, Clone, Copy, PartialEq, Eq, Structural)]
pub enum AmenitiesLevel {
    Few,
    Common,
    Abundant,
    Luxurious,
}

/// The prediction target: six mutually exclusive nightly-price ranges.
#[derive(Debug, Clone, Copy, PartialEq, Eq, Structural)]
pub enum PriceRange {
    Under100,
    R100_200,
    R200_300,
    R300_400,
    R400_500,
    Above500,
}

/// A candidate feature, in the priority order used to break ties.
#[derive(Debug, Clone, Copy, PartialEq, Eq, Structural)]
pub enum Feature {
    RoomType,
    BedRooms,
    Popularity,
    AmenitiesLevel,
}

#[derive(Debug, Clone, Copy, PartialEq, Eq, Structural)]
pub struct RoomInfo {
    pub room_type: RoomType,
    pub bedrooms: BedRooms,
    pub popularity: Popularity,
    pub amenities_level: AmenitiesLevel,
    pub price: PriceRange,
}

/// Number of price brackets.
pub const BRACKETS: usize = 6;

/// Number of candidate features.
pub const FEATURES: usize = 4;

impl RoomType {
    pub open spec fn index(self) -> int {
        match self {
            RoomType::PrivateRoom => 0,
            RoomType::EntireHomeApt => 1,
            RoomType::HotelRoom => 2,
        }
    }
}

impl BedRooms {
    pub open spec fn index(self) -> int {
        match self {
            BedRooms::One => 0,
            BedRooms::Two => 1,
            BedRooms::ThreeToFive => 2,
            BedRooms::SixOrMore => 3,
        }
    }
}

impl Popularity {
    pub open spec fn index(self) -> int {
        match self {
            Popularity::Level1 => 0,
            Popularity::Level2 => 1,
            Popularity::Level3 => 2,
            Popularity::Level4 => 3,
            Popularity::Level5 => 4,
        }
    }
}

impl AmenitiesLevel {
    pub open spec fn index(self) -> int {
        match self {
            AmenitiesLevel::Few => 0,
            AmenitiesLevel::Common => 1,
            AmenitiesLevel::Abundant => 2,
            AmenitiesLevel::Luxurious => 3,
        }
    }
}

impl PriceRange {
    /// Position of the bracket in declaration order.
    pub open spec fn index(self) -> int {
        match self {
            PriceRange::Under100 => 0,
            PriceRange::R100_200 => 1,
            PriceRange::R200_300 => 2,
            PriceRange::R300_400 => 3,
            PriceRange::R400_500 => 4,
            PriceRange::Above500 => 5,
        }
    }

    /// The bracket at a position; positions past the last give the last.
    pub open spec fn at(k: int) -> PriceRange {
        if k <= 0 {
            PriceRange::Under100
        } else if k == 1 {
            PriceRange::R100_200
        } else if k == 2 {
            PriceRange::R200_300
        } else if k == 3 {
            PriceRange::R300_400
        } else if k == 4 {
            PriceRange::R400_500
        } else {
            PriceRange::Above500
        }
    }

    pub fn ordinal(self) -> (k: usize)
        ensures
            k == self.index(),
            k < BRACKETS,
            PriceRange::at(k as int) == self,
    {
        match self {
            PriceRange::Under100 => 0,
            PriceRange::R100_200 => 1,
            PriceRange::R200_300 => 2,
            PriceRange::R300_400 => 3,
            PriceRange::R400_500 => 4,
            PriceRange::Above500 => 5,
        }
    }

    pub fn from_ordinal(k: usize) -> (p: PriceRange)
        ensures
            p == PriceRange::at(k as int),
            k < BRACKETS ==> p.index() == k,
    {
        if k == 0 {
            PriceRange::Under100
        } else if k == 1 {
            PriceRange::R100_200
        } else if k == 2 {
            PriceRange::R200_300
        } else if k == 3 {
            PriceRange::R300_400
        } else if k == 4 {
            PriceRange::R400_500
        } else {
            PriceRange::Above500
        }
    }
}

impl Feature {
    /// Number of values in the feature's enumeration.
    pub open spec fn arity(self) -> int {
        match self {
            Feature::RoomType => 3,
            Feature::BedRooms => 4,
            Feature::Popularity => 5,
            Feature::AmenitiesLevel => 4,
        }
    }

    /// Position of the feature in priority order.
    pub open spec fn index(self) -> int {
        match self {
            Feature::RoomType => 0,
            Feature::BedRooms => 1,
            Feature::Popularity => 2,
            Feature::AmenitiesLevel => 3,
        }
    }

    /// The feature at a priority position; positions past the last give the last.
    pub open spec fn at(i: int) -> Feature {
        if i <= 0 {
            Feature::RoomType
        } else if i == 1 {
            Feature::BedRooms
        } else if i == 2 {
            Feature::Popularity
        } else {
            Feature::AmenitiesLevel
        }
    }

    pub fn value_count(self) -> (n: usize)
        ensures
            n == self.arity(),
            3 <= n <= 5,
    {
        match self {
            Feature::RoomType => 3,
            Feature::BedRooms => 4,
            Feature::Popularity => 5,
            Feature::AmenitiesLevel => 4,
        }
    }

    pub fn from_ordinal(i: usize) -> (f: Feature)
        ensures
            f == Feature::at(i as int),
            i < FEATURES ==> f.index() == i,
    {
        if i == 0 {
            Feature::RoomType
        } else if i == 1 {
            Feature::BedRooms
        } else if i == 2 {
            Feature::Popularity
        } else {
            Feature::AmenitiesLevel
        }
    }
}

impl RoomInfo {
    /// The record every ingestion starts from: the first value of each
    /// enumeration.
    pub fn new() -> (r: RoomInfo)
        ensures
            r == (RoomInfo {
                room_type: RoomType::PrivateRoom,
                bedrooms: BedRooms::One,
                popularity: Popularity::Level1,
                amenities_level: AmenitiesLevel::Few,
                price: PriceRange::Under100,
            }),
    {
        RoomInfo {
            room_type: RoomType::PrivateRoom,
            bedrooms: BedRooms::One,
            popularity: Popularity::Level1,
            amenities_level: AmenitiesLevel::Few,
            price: PriceRange::Under100,
        }
    }

    /// Position of the record's value for `f` within that feature's
    /// enumeration.
    pub open spec fn value(self, f: Feature) -> int {
        match f {
            Feature::RoomType => self.room_type.index(),
            Feature::BedRooms => self.bedrooms.index(),
            Feature::Popularity => self.popularity.index(),
            Feature::AmenitiesLevel => self.amenities_level.index(),
        }
    }

    pub fn value_ordinal(&self, f: Feature) -> (v: usize)
        ensures
            v == self.value(f),
            v < f.arity(),
    {
        match f {
            Feature::RoomType => match self.room_type {
                RoomType::PrivateRoom => 0,
                RoomType::EntireHomeApt => 1,
                RoomType::HotelRoom => 2,
            },
            Feature::BedRooms => match self.bedrooms {
                BedRooms::One => 0,
                BedRooms::Two => 1,
                BedRooms::ThreeToFive => 2,
                BedRooms::SixOrMore => 3,
            },
            Feature::Popularity => match self.popularity {
                Popularity::Level1 => 0,
                Popularity::Level2 => 1,
                Popularity::Level3 => 2,
                Popularity::Level4 => 3,
                Popularity::Level5 => 4,
            },
            Feature::AmenitiesLevel => match self.amenities_level {
                AmenitiesLevel::Few => 0,
                AmenitiesLevel::Common => 1,
                AmenitiesLevel::Abundant => 2,
                AmenitiesLevel::Luxurious => 3,
            },
        }
    }
}

} // verus!
