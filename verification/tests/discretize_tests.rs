use listing_tree::discretize::{
    count_byte, field_bounds, find_byte, pre_treatment, read_bedrooms, read_popularity,
    read_price, read_rated_below_four, read_room_type, read_unsigned, same_text,
};
use listing_tree::record::{AmenitiesLevel, BedRooms, Popularity, PriceRange, RoomInfo, RoomType};

fn line_with_amenities(head: &str, amenities: usize) -> String {
    let mut line = String::from(head);
    for i in 0..amenities {
        line.push_str(&format!(",item{}", i));
    }
    line
}

#[test]
fn find_byte_stops_at_first() {
    assert_eq!(find_byte(b"ab,cd,ef", b',', 0), 2);
    assert_eq!(find_byte(b"ab,cd,ef", b',', 2), 2);
    assert_eq!(find_byte(b"ab,cd,ef", b',', 3), 5);
    assert_eq!(find_byte(b"ab,cd,ef", b',', 6), 8);
    assert_eq!(find_byte(b"", b',', 0), 0);
}

#[test]
fn count_byte_counts_from_position() {
    assert_eq!(count_byte(b"a,b,,c", b',', 0), 3);
    assert_eq!(count_byte(b"a,b,,c", b',', 2), 2);
    assert_eq!(count_byte(b"a,b,,c", b',', 6), 0);
}

#[test]
fn field_bounds_split_on_commas() {
    let line = b"ab,cd,,ef";
    assert_eq!(field_bounds(line, 0), Some((0, 2)));
    assert_eq!(field_bounds(line, 1), Some((3, 5)));
    assert_eq!(field_bounds(line, 2), Some((6, 6)));
    assert_eq!(field_bounds(line, 3), Some((7, 9)));
    assert_eq!(field_bounds(line, 4), None);
    assert_eq!(field_bounds(line, 9), None);
    assert_eq!(field_bounds(b"", 0), Some((0, 0)));
    assert_eq!(field_bounds(b"", 1), None);
    assert_eq!(field_bounds(b"x,", 1), Some((2, 2)));
}

#[test]
fn same_text_compares_bytes() {
    assert!(same_text(b"Hotel room", &b"Hotel room".to_vec()));
    assert!(!same_text(b"Hotel room", &b"Hotel roam".to_vec()));
    assert!(!same_text(b"Hotel", &b"Hotel room".to_vec()));
    assert!(same_text(b"", &vec![]));
}

#[test]
fn read_unsigned_reads_decimal() {
    assert_eq!(read_unsigned(b"0", 65535), Some(0));
    assert_eq!(read_unsigned(b"00123", 65535), Some(123));
    assert_eq!(read_unsigned(b"+42", 65535), Some(42));
    assert_eq!(read_unsigned(b"65535", 65535), Some(65535));
    assert_eq!(read_unsigned(b"65536", 65535), None);
    assert_eq!(read_unsigned(b"4294967295", 4294967295), Some(4294967295));
    assert_eq!(read_unsigned(b"4294967296", 4294967295), None);
    assert_eq!(read_unsigned(b"99999999999999999999999999", 4294967295), None);
    assert_eq!(read_unsigned(b"", 65535), None);
    assert_eq!(read_unsigned(b"+", 65535), None);
    assert_eq!(read_unsigned(b"-1", 65535), None);
    assert_eq!(read_unsigned(b"12a", 65535), None);
    assert_eq!(read_unsigned(b" 12", 65535), None);
    assert_eq!(read_unsigned(b"1.5", 65535), None);
}

#[test]
fn read_unsigned_agrees_with_std_parse() {
    for text in ["7", "+7", "007", "65535", "65536", "", "+", "x", "1 ", "-0", "++1"] {
        let here = read_unsigned(text.as_bytes(), 65535);
        let there = text.parse::<u16>().ok().map(|n| n as u64);
        assert_eq!(here, there);
    }
}

#[test]
fn room_types_by_name() {
    assert_eq!(read_room_type(b"Private room"), RoomType::PrivateRoom);
    assert_eq!(read_room_type(b"Entire home/apt"), RoomType::EntireHomeApt);
    assert_eq!(read_room_type(b"Hotel room"), RoomType::HotelRoom);
    assert_eq!(read_room_type(b"Shared room"), RoomType::PrivateRoom);
    assert_eq!(read_room_type(b""), RoomType::PrivateRoom);
    assert_eq!(read_room_type(b"hotel room"), RoomType::PrivateRoom);
}

#[test]
fn bedrooms_by_count() {
    assert_eq!(read_bedrooms(b""), BedRooms::One);
    assert_eq!(read_bedrooms(b"1"), BedRooms::One);
    assert_eq!(read_bedrooms(b"2"), BedRooms::Two);
    assert_eq!(read_bedrooms(b"3"), BedRooms::ThreeToFive);
    assert_eq!(read_bedrooms(b"4"), BedRooms::ThreeToFive);
    assert_eq!(read_bedrooms(b"5"), BedRooms::ThreeToFive);
    assert_eq!(read_bedrooms(b"6"), BedRooms::SixOrMore);
    assert_eq!(read_bedrooms(b"12"), BedRooms::SixOrMore);
    assert_eq!(read_bedrooms(b"0"), BedRooms::SixOrMore);
}

#[test]
fn popularity_by_review_count() {
    assert_eq!(read_popularity(b""), Popularity::Level1);
    assert_eq!(read_popularity(b"0"), Popularity::Level1);
    assert_eq!(read_popularity(b"49"), Popularity::Level1);
    assert_eq!(read_popularity(b"50"), Popularity::Level3);
    assert_eq!(read_popularity(b"200"), Popularity::Level3);
    assert_eq!(read_popularity(b"201"), Popularity::Level5);
    assert_eq!(read_popularity(b"65535"), Popularity::Level5);
    assert_eq!(read_popularity(b"70000"), Popularity::Level1);
    assert_eq!(read_popularity(b"many"), Popularity::Level1);
}

#[test]
fn scores_below_four() {
    assert!(read_rated_below_four(b""));
    assert!(read_rated_below_four(b"0"));
    assert!(read_rated_below_four(b"3.99"));
    assert!(read_rated_below_four(b"3"));
    assert!(!read_rated_below_four(b"4"));
    assert!(!read_rated_below_four(b"4.0"));
    assert!(!read_rated_below_four(b"4.75"));
    assert!(!read_rated_below_four(b"5"));
    assert!(!read_rated_below_four(b"10.0"));
    assert!(!read_rated_below_four(b"100000000000000000000000000"));
    assert!(read_rated_below_four(b"03.5"));
}

#[test]
fn price_brackets_by_amount() {
    assert_eq!(read_price(b"$0.00"), PriceRange::Under100);
    assert_eq!(read_price(b"$99.99"), PriceRange::Under100);
    assert_eq!(read_price(b"$100.00"), PriceRange::R100_200);
    assert_eq!(read_price(b"$199"), PriceRange::R100_200);
    assert_eq!(read_price(b"$200.00"), PriceRange::R200_300);
    assert_eq!(read_price(b"$299.50"), PriceRange::R200_300);
    assert_eq!(read_price(b"$300.00"), PriceRange::R300_400);
    assert_eq!(read_price(b"$399.00"), PriceRange::R300_400);
    assert_eq!(read_price(b"$400.00"), PriceRange::R400_500);
    assert_eq!(read_price(b"$499.99"), PriceRange::R400_500);
    assert_eq!(read_price(b"$500.00"), PriceRange::Above500);
    assert_eq!(read_price(b"$4294967295.00"), PriceRange::Above500);
}

#[test]
fn unreadable_price_falls_into_first_bracket() {
    assert_eq!(read_price(b""), PriceRange::Under100);
    assert_eq!(read_price(b"$"), PriceRange::Under100);
    assert_eq!(read_price(b"$abc"), PriceRange::Under100);
    assert_eq!(read_price(b"$.50"), PriceRange::Under100);
    assert_eq!(read_price(b"$4294967296.00"), PriceRange::Under100);
    assert_eq!(read_price(b"650"), PriceRange::Under100);
    assert_eq!(read_price(b"7650"), PriceRange::Above500);
}

#[test]
fn full_line_is_discretized() {
    let line = line_with_amenities("Entire home/apt,2,120,4.8,$250.00", 12);
    assert_eq!(
        pre_treatment(line),
        RoomInfo {
            room_type: RoomType::EntireHomeApt,
            bedrooms: BedRooms::Two,
            popularity: Popularity::Level3,
            amenities_level: AmenitiesLevel::Common,
            price: PriceRange::R200_300,
        }
    );
}

#[test]
fn low_score_lowers_popularity() {
    let line = line_with_amenities("Hotel room,4,300,3.9,$1200.50", 31);
    assert_eq!(
        pre_treatment(line),
        RoomInfo {
            room_type: RoomType::HotelRoom,
            bedrooms: BedRooms::ThreeToFive,
            popularity: Popularity::Level4,
            amenities_level: AmenitiesLevel::Luxurious,
            price: PriceRange::Above500,
        }
    );
    let middle = pre_treatment(String::from("x,7,60,3,$450"));
    assert_eq!(
        middle,
        RoomInfo {
            room_type: RoomType::PrivateRoom,
            bedrooms: BedRooms::SixOrMore,
            popularity: Popularity::Level2,
            amenities_level: AmenitiesLevel::Few,
            price: PriceRange::R400_500,
        }
    );
    let kept = pre_treatment(String::from("x,7,60,4.2,$450"));
    assert_eq!(kept.popularity, Popularity::Level3);
    let top = pre_treatment(String::from("x,7,600,4.2,$450"));
    assert_eq!(top.popularity, Popularity::Level5);
}

#[test]
fn missing_fields_keep_first_buckets() {
    assert_eq!(pre_treatment(String::new()), RoomInfo::new());
    let only_type = pre_treatment(String::from("Hotel room"));
    assert_eq!(only_type.room_type, RoomType::HotelRoom);
    assert_eq!(only_type.bedrooms, BedRooms::One);
    assert_eq!(only_type.popularity, Popularity::Level1);
    assert_eq!(only_type.price, PriceRange::Under100);
    assert_eq!(only_type.amenities_level, AmenitiesLevel::Few);
    let no_score = pre_treatment(String::from("Private room,2,300"));
    assert_eq!(no_score.popularity, Popularity::Level5);
    let empty_score = pre_treatment(String::from("Private room,2,300,"));
    assert_eq!(empty_score.popularity, Popularity::Level4);
    let empty_fields = pre_treatment(String::from(",,,,"));
    assert_eq!(empty_fields, RoomInfo::new());
}

#[test]
fn amenities_levels_by_count() {
    let head = "Private room,1,10,4.5,$80.00";
    for (count, level) in [
        (0, AmenitiesLevel::Few),
        (1, AmenitiesLevel::Few),
        (9, AmenitiesLevel::Few),
        (10, AmenitiesLevel::Common),
        (19, AmenitiesLevel::Common),
        (20, AmenitiesLevel::Abundant),
        (29, AmenitiesLevel::Abundant),
        (30, AmenitiesLevel::Luxurious),
        (31, AmenitiesLevel::Luxurious),
        (100, AmenitiesLevel::Luxurious),
    ] {
        let record = pre_treatment(line_with_amenities(head, count));
        assert_eq!(record.amenities_level, level);
        assert_eq!(record.price, PriceRange::Under100);
    }
}

#[test]
fn line_with_wide_characters_is_read_bytewise() {
    let record = pre_treatment(String::from("Hotel room,2,60,4.5,\u{20ac}250.00,wifi"));
    assert_eq!(record.room_type, RoomType::HotelRoom);
    assert_eq!(record.price, PriceRange::Under100);
    assert_eq!(record.amenities_level, AmenitiesLevel::Few);
}
