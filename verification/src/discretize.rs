//! Discretization of one line of the listings table into a categorical
//! record. The line is a list of comma-separated fields: room type,
//! bedrooms, number of reviews, review score, nightly price, and then one
//! field per amenity. Nothing here fails: a field that is missing or cannot
//! be read falls into the first bucket of its feature.

use vstd::prelude::*;
use vstd::slice::slice_subrange;
use vstd::utf8::encode_utf8;
use crate::record::{AmenitiesLevel, BedRooms, Popularity, PriceRange, RoomInfo, RoomType};

verus! {

/// The field separator, a comma.
pub const COMMA: u8 = 0x2c;

/// The decimal point.
pub const POINT: u8 = 0x2e;

/// The plus sign.
pub const PLUS: u8 = 0x2b;

/// Largest review count that is read; anything above is unreadable.
pub const REVIEWS_MAX: u64 = 0xffff;

/// Largest price that is read; anything above is unreadable.
pub const PRICE_MAX: u64 = 0xffff_ffff;

/// The text `Entire home/apt`.
pub open spec fn entire_home_text() -> Seq<u8> {
    seq![
        0x45u8, 0x6e, 0x74, 0x69, 0x72, 0x65, 0x20, 0x68, 0x6f, 0x6d, 0x65, 0x2f, 0x61, 0x70, 0x74,
    ]
}

/// The text `Hotel room`.
pub open spec fn hotel_room_text() -> Seq<u8> {
    seq![0x48u8, 0x6f, 0x74, 0x65, 0x6c, 0x20, 0x72, 0x6f, 0x6f, 0x6d]
}

/// A decimal digit.
pub open spec fn is_digit(b: u8) -> bool {
    0x30 <= b <= 0x39
}

/// Position of the first `stop` byte at or after `from`, or the length of
/// the text when there is none.
pub open spec fn position_of(text: Seq<u8>, stop: u8, from: int) -> int
    decreases text.len() - from,
{
    if from < 0 || from >= text.len() {
        text.len() as int
    } else if text[from] == stop {
        from
    } else {
        position_of(text, stop, from + 1)
    }
}

/// Length of the run of digits at the start of the text.
pub open spec fn digit_run(text: Seq<u8>, from: int) -> int
    decreases text.len() - from,
{
    if from < 0 || from >= text.len() {
        text.len() as int
    } else if !is_digit(text[from]) {
        from
    } else {
        digit_run(text, from + 1)
    }
}

/// Number of `stop` bytes at or after `from`.
pub open spec fn occurrences_from(text: Seq<u8>, stop: u8, from: int) -> nat
    decreases text.len() - from,
{
    if from < 0 || from >= text.len() {
        0
    } else {
        occurrences_from(text, stop, from + 1) + if text[from] == stop {
            1nat
        } else {
            0nat
        }
    }
}

/// Where field `k` of a line starts, counting from zero; `None` when the
/// line has no such field.
pub open spec fn field_start(line: Seq<u8>, k: nat) -> Option<int>
    decreases k,
{
    if k == 0 {
        Some(0)
    } else {
        match field_start(line, (k - 1) as nat) {
            Some(s) => {
                let e = position_of(line, COMMA, s);
                if e < line.len() {
                    Some(e + 1)
                } else {
                    None
                }
            },
            None => None,
        }
    }
}

/// Field `k` of a line: the bytes between two commas.
pub open spec fn field(line: Seq<u8>, k: nat) -> Option<Seq<u8>> {
    match field_start(line, k) {
        Some(s) => Some(line.subrange(s, position_of(line, COMMA, s))),
        None => None,
    }
}

/// Number of fields after the fifth.
pub open spec fn extra_fields(line: Seq<u8>) -> nat {
    match field_start(line, 5) {
        Some(s) => occurrences_from(line, COMMA, s) + 1,
        None => 0,
    }
}

/// The value of a decimal digit; a byte that is no digit counts as zero.
pub open spec fn digit_value(b: u8) -> nat {
    if is_digit(b) {
        (b - 0x30) as nat
    } else {
        0
    }
}

/// The number that a text of decimal digits writes.
pub open spec fn digits_value(text: Seq<u8>) -> nat
    decreases text.len(),
{
    if text.len() == 0 {
        0
    } else {
        digits_value(text.drop_last()) * 10 + digit_value(text.last())
    }
}

/// Reads an unsigned decimal number: an optional plus sign, then one or
/// more digits and nothing else. `None` for any other text and for a number
/// above `limit`.
pub open spec fn parse_unsigned(text: Seq<u8>, limit: nat) -> Option<nat> {
    let digits = if text.len() > 0 && text[0] == PLUS {
        text.skip(1)
    } else {
        text
    };
    if digits.len() > 0 && digit_run(digits, 0) == digits.len() && digits_value(digits) <= limit {
        Some(digits_value(digits))
    } else {
        None
    }
}

/// The room type that a text names; any other text is a private room.
pub open spec fn room_type_of(text: Seq<u8>) -> RoomType {
    if text == entire_home_text() {
        RoomType::EntireHomeApt
    } else if text == hotel_room_text() {
        RoomType::HotelRoom
    } else {
        RoomType::PrivateRoom
    }
}

/// The bedroom bucket of a text: empty or `1`, `2`, `3` to `5`, and
/// anything else counts as six or more.
pub open spec fn bedrooms_of(text: Seq<u8>) -> BedRooms {
    if text.len() == 0 {
        BedRooms::One
    } else if text.len() == 1 && text[0] == 0x31 {
        BedRooms::One
    } else if text.len() == 1 && text[0] == 0x32 {
        BedRooms::Two
    } else if text.len() == 1 && 0x33 <= text[0] <= 0x35 {
        BedRooms::ThreeToFive
    } else {
        BedRooms::SixOrMore
    }
}

/// Popularity by number of reviews: under 50, up to 200, above. An empty
/// field counts as one review, an unreadable one as the first level.
pub open spec fn popularity_of(text: Seq<u8>) -> Popularity {
    let reviews = if text.len() == 0 {
        Some(1nat)
    } else {
        parse_unsigned(text, REVIEWS_MAX as nat)
    };
    match reviews {
        None => Popularity::Level1,
        Some(n) => if n < 50 {
            Popularity::Level1
        } else if n > 200 {
            Popularity::Level5
        } else {
            Popularity::Level3
        },
    }
}

/// Whether a review score is below four: the digits before the decimal
/// point write a number under four. An empty field counts as zero.
pub open spec fn rated_below_four(text: Seq<u8>) -> bool {
    digits_value(text.subrange(0, digit_run(text, 0))) < 4
}

/// The popularity of a listing rated below four: the two levels of many
/// reviews drop by one.
pub open spec fn lowered(p: Popularity) -> Popularity {
    match p {
        Popularity::Level3 => Popularity::Level2,
        Popularity::Level5 => Popularity::Level4,
        other => other,
    }
}

/// The bracket of a whole price.
pub open spec fn bracket_of(price: nat) -> PriceRange {
    if price < 100 {
        PriceRange::Under100
    } else if price < 200 {
        PriceRange::R100_200
    } else if price < 300 {
        PriceRange::R200_300
    } else if price < 400 {
        PriceRange::R300_400
    } else if price < 500 {
        PriceRange::R400_500
    } else {
        PriceRange::Above500
    }
}

/// The bracket of a price field: the currency symbol, one byte, is dropped,
/// then what stands before the decimal point is read as a number. An
/// unreadable price falls into the first bracket.
pub open spec fn price_of(text: Seq<u8>) -> PriceRange {
    if text.len() == 0 {
        PriceRange::Under100
    } else {
        let amount = text.skip(1);
        let whole = amount.subrange(0, position_of(amount, POINT, 0));
        match parse_unsigned(whole, PRICE_MAX as nat) {
            Some(p) => bracket_of(p),
            None => PriceRange::Under100,
        }
    }
}

/// The amenities level of a number of amenities.
pub open spec fn amenities_of(count: nat) -> AmenitiesLevel {
    if count < 10 {
        AmenitiesLevel::Few
    } else if count < 20 {
        AmenitiesLevel::Common
    } else if count < 30 {
        AmenitiesLevel::Abundant
    } else {
        AmenitiesLevel::Luxurious
    }
}

/// The record that a line stands for.
pub open spec fn record_of_line(line: Seq<u8>) -> RoomInfo {
    let counted = match field(line, 2) {
        Some(text) => popularity_of(text),
        None => Popularity::Level1,
    };
    RoomInfo {
        room_type: match field(line, 0) {
            Some(text) => room_type_of(text),
            None => RoomType::PrivateRoom,
        },
        bedrooms: match field(line, 1) {
            Some(text) => bedrooms_of(text),
            None => BedRooms::One,
        },
        popularity: match field(line, 3) {
            Some(text) => if rated_below_four(text) {
                lowered(counted)
            } else {
                counted
            },
            None => counted,
        },
        amenities_level: amenities_of(extra_fields(line)),
        price: match field(line, 4) {
            Some(text) => price_of(text),
            None => PriceRange::Under100,
        },
    }
}

/// Position of the first `stop` byte at or after `from`.
pub fn find_byte(text: &[u8], stop: u8, from: usize) -> (at: usize)
    requires
        from <= text@.len(),
    ensures
        at == position_of(text@, stop, from as int),
        from <= at <= text@.len(),
{
    let mut i: usize = from;
    while i < text.len() && text[i] != stop
        invariant
            from <= i <= text@.len(),
            position_of(text@, stop, i as int) == position_of(text@, stop, from as int),
        decreases text@.len() - i,
    {
        i += 1;
    }
    i
}

/// Number of `stop` bytes at or after `from`.
pub fn count_byte(text: &[u8], stop: u8, from: usize) -> (n: usize)
    requires
        from <= text@.len(),
    ensures
        n == occurrences_from(text@, stop, from as int),
{
    let mut n: usize = 0;
    let mut i: usize = from;
    while i < text.len()
        invariant
            from <= i <= text@.len(),
            n <= i - from,
            n + occurrences_from(text@, stop, i as int) == occurrences_from(
                text@,
                stop,
                from as int,
            ),
        decreases text@.len() - i,
    {
        if text[i] == stop {
            n += 1;
        }
        i += 1;
    }
    n
}

/// The bounds of field `k` of a line, `None` when the line has fewer fields.
pub fn field_bounds(line: &[u8], k: usize) -> (bounds: Option<(usize, usize)>)
    ensures
        match bounds {
            Some((from, to)) => from <= to <= line@.len() && field_start(line@, k as nat) == Some(
                from as int,
            ) && to == position_of(line@, COMMA, from as int),
            None => field_start(line@, k as nat) is None,
        },
{
    let mut start: usize = 0;
    let mut j: usize = 0;
    while j < k
        invariant
            j <= k,
            start <= line@.len(),
            field_start(line@, j as nat) == Some(start as int),
        decreases k - j,
    {
        let end: usize = find_byte(line, COMMA, start);
        if end >= line.len() {
            proof {
                lemma_no_later_field(line@, j as nat + 1, k as nat);
            }
            return None;
        }
        start = end + 1;
        j += 1;
    }
    let end: usize = find_byte(line, COMMA, start);
    Some((start, end))
}

/// A line without field `j` has no later field either.
pub proof fn lemma_no_later_field(line: Seq<u8>, j: nat, k: nat)
    requires
        j <= k,
        field_start(line, j) is None,
    ensures
        field_start(line, k) is None,
    decreases k,
{
    if j < k {
        lemma_no_later_field(line, j, (k - 1) as nat);
    }
}

/// Whether two texts are the same.
pub fn same_text(text: &[u8], pattern: &Vec<u8>) -> (same: bool)
    ensures
        same == (text@ == pattern@),
{
    if text.len() != pattern.len() {
        return false;
    }
    let mut i: usize = 0;
    while i < text.len()
        invariant
            i <= text@.len(),
            text@.len() == pattern@.len(),
            forall|j: int| 0 <= j < i ==> text@[j] == pattern@[j],
        decreases text@.len() - i,
    {
        if text[i] != pattern[i] {
            return false;
        }
        i += 1;
    }
    proof {
        assert(text@ =~= pattern@);
    }
    true
}

/// Reads the digits of `text` from `from` up to `to` as a number, `None`
/// when a byte is no digit or the number is above `limit`.
fn read_digits(text: &[u8], from: usize, to: usize, limit: u64) -> (value: Option<u64>)
    requires
        from <= to <= text@.len(),
        limit <= PRICE_MAX,
    ensures
        value == if digit_run(text@.subrange(from as int, to as int), 0) == to - from
            && digits_value(text@.subrange(from as int, to as int)) <= limit {
            Some(digits_value(text@.subrange(from as int, to as int)) as u64)
        } else {
            None
        },
{
    let ghost digits = text@.subrange(from as int, to as int);
    let mut value: u64 = 0;
    let mut i: usize = from;
    while i < to
        invariant
            from <= i <= to <= text@.len(),
            digits == text@.subrange(from as int, to as int),
            limit <= PRICE_MAX,
            value == digits_value(digits.take(i - from)),
            value <= limit,
            digit_run(digits, 0) == digit_run(digits, i - from),
        decreases to - i,
    {
        let b: u8 = text[i];
        proof {
            assert(digits[i - from] == b);
            assert(digits.take(i - from + 1).drop_last() =~= digits.take(i - from));
        }
        if b < 0x30 || b > 0x39 {
            return None;
        }
        let next: u64 = value * 10 + (b - 0x30) as u64;
        if next > limit {
            proof {
                lemma_digits_grow(digits, i - from + 1);
            }
            return None;
        }
        value = next;
        i += 1;
    }
    proof {
        assert(digits.take(to - from) =~= digits);
    }
    Some(value)
}

/// A number is at least the number written by any prefix of its digits.
pub proof fn lemma_digits_grow(text: Seq<u8>, n: int)
    requires
        0 <= n <= text.len(),
    ensures
        digits_value(text.take(n)) <= digits_value(text),
    decreases text.len(),
{
    if n == text.len() {
        assert(text.take(n) =~= text);
    } else {
        lemma_digits_grow(text.drop_last(), n);
        assert(text.drop_last().take(n) =~= text.take(n));
    }
}

/// Reads an unsigned decimal number: see `parse_unsigned`.
pub fn read_unsigned(text: &[u8], limit: u64) -> (value: Option<u64>)
    requires
        limit <= PRICE_MAX,
    ensures
        match parse_unsigned(text@, limit as nat) {
            Some(n) => value == Some(n as u64),
            None => value is None,
        },
{
    let from: usize = if text.len() > 0 && text[0] == PLUS {
        1
    } else {
        0
    };
    proof {
        if from == 1 {
            assert(text@.subrange(1, text@.len() as int) =~= text@.skip(1));
        } else {
            assert(text@.subrange(0, text@.len() as int) =~= text@);
        }
    }
    if from == text.len() {
        return None;
    }
    read_digits(text, from, text.len(), limit)
}

/// The room type that a field names: see `room_type_of`.
pub fn read_room_type(text: &[u8]) -> (room_type: RoomType)
    ensures
        room_type == room_type_of(text@),
{
    let entire_home: Vec<u8> = vec![
        0x45u8, 0x6e, 0x74, 0x69, 0x72, 0x65, 0x20, 0x68, 0x6f, 0x6d, 0x65, 0x2f, 0x61, 0x70, 0x74,
    ];
    let hotel_room: Vec<u8> = vec![0x48u8, 0x6f, 0x74, 0x65, 0x6c, 0x20, 0x72, 0x6f, 0x6f, 0x6d];
    if same_text(text, &entire_home) {
        RoomType::EntireHomeApt
    } else if same_text(text, &hotel_room) {
        RoomType::HotelRoom
    } else {
        RoomType::PrivateRoom
    }
}

/// The bedroom bucket of a field: see `bedrooms_of`.
pub fn read_bedrooms(text: &[u8]) -> (bedrooms: BedRooms)
    ensures
        bedrooms == bedrooms_of(text@),
{
    if text.len() == 0 {
        BedRooms::One
    } else if text.len() == 1 && text[0] == 0x31 {
        BedRooms::One
    } else if text.len() == 1 && text[0] == 0x32 {
        BedRooms::Two
    } else if text.len() == 1 && 0x33 <= text[0] && text[0] <= 0x35 {
        BedRooms::ThreeToFive
    } else {
        BedRooms::SixOrMore
    }
}

/// The popularity of a review-count field: see `popularity_of`.
pub fn read_popularity(text: &[u8]) -> (popularity: Popularity)
    ensures
        popularity == popularity_of(text@),
{
    let reviews: Option<u64> = if text.len() == 0 {
        Some(1)
    } else {
        read_unsigned(text, REVIEWS_MAX)
    };
    match reviews {
        None => Popularity::Level1,
        Some(n) => if n < 50 {
            Popularity::Level1
        } else if n > 200 {
            Popularity::Level5
        } else {
            Popularity::Level3
        },
    }
}

/// Whether a review score is below four: see `rated_below_four`.
pub fn read_rated_below_four(text: &[u8]) -> (below: bool)
    ensures
        below == rated_below_four(text@),
{
    let mut capped: u64 = 0;
    let mut i: usize = 0;
    while i < text.len() && 0x30 <= text[i] && text[i] <= 0x39
        invariant
            i <= text@.len(),
            digit_run(text@, i as int) == digit_run(text@, 0),
            capped <= 4,
            capped < 4 ==> capped == digits_value(text@.subrange(0, i as int)),
            capped == 4 ==> digits_value(text@.subrange(0, i as int)) >= 4,
        decreases text@.len() - i,
    {
        proof {
            assert(text@.subrange(0, i + 1).drop_last() =~= text@.subrange(0, i as int));
        }
        let next: u64 = capped * 10 + (text[i] - 0x30) as u64;
        capped = if next > 4 {
            4
        } else {
            next
        };
        i += 1;
    }
    capped < 4
}

/// The bracket of a price field: see `price_of`.
pub fn read_price(text: &[u8]) -> (price: PriceRange)
    ensures
        price == price_of(text@),
{
    if text.len() == 0 {
        return PriceRange::Under100;
    }
    let amount = slice_subrange(text, 1, text.len());
    proof {
        assert(amount@ =~= text@.skip(1));
    }
    let point: usize = find_byte(amount, POINT, 0);
    let whole = slice_subrange(amount, 0, point);
    match read_unsigned(whole, PRICE_MAX) {
        None => PriceRange::Under100,
        Some(p) => if p < 100 {
            PriceRange::Under100
        } else if p < 200 {
            PriceRange::R100_200
        } else if p < 300 {
            PriceRange::R200_300
        } else if p < 400 {
            PriceRange::R300_400
        } else if p < 500 {
            PriceRange::R400_500
        } else {
            PriceRange::Above500
        },
    }
}

/// Turns one line of the listings table into a record: see
/// `record_of_line`. The line is read as its UTF-8 bytes.
pub fn pre_treatment(origin_string: String) -> (roominfo: RoomInfo)
    ensures
        roominfo == record_of_line(encode_utf8(origin_string@)),
{
    let line: &[u8] = origin_string.as_str().as_bytes();
    let mut roominfo = RoomInfo::new();
    match field_bounds(line, 0) {
        Some((from, to)) => {
            roominfo.room_type = read_room_type(slice_subrange(line, from, to));
        },
        None => {},
    }
    match field_bounds(line, 1) {
        Some((from, to)) => {
            roominfo.bedrooms = read_bedrooms(slice_subrange(line, from, to));
        },
        None => {},
    }
    match field_bounds(line, 2) {
        Some((from, to)) => {
            roominfo.popularity = read_popularity(slice_subrange(line, from, to));
        },
        None => {},
    }
    match field_bounds(line, 3) {
        Some((from, to)) => {
            if read_rated_below_four(slice_subrange(line, from, to)) {
                roominfo.popularity = match roominfo.popularity {
                    Popularity::Level3 => Popularity::Level2,
                    Popularity::Level5 => Popularity::Level4,
                    other => other,
                };
            }
        },
        None => {},
    }
    match field_bounds(line, 4) {
        Some((from, to)) => {
            roominfo.price = read_price(slice_subrange(line, from, to));
        },
        None => {},
    }
    let extras: usize = match field_bounds(line, 5) {
        Some((from, _)) => {
            let commas: usize = count_byte(line, COMMA, from);
            if commas < 30 {
                commas + 1
            } else {
                30
            }
        },
        None => 0,
    };
    roominfo.amenities_level = if extras < 10 {
        AmenitiesLevel::Few
    } else if extras < 20 {
        AmenitiesLevel::Common
    } else if extras < 30 {
        AmenitiesLevel::Abundant
    } else {
        AmenitiesLevel::Luxurious
    };
    roominfo
}

} // verus!
