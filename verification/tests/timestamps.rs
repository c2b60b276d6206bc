//! Timestamps and their packed forms.

use fatx::{DateTime, Variant};


/// An hour and a minute that do not fit the original Xbox's narrower
/// fields, so a regression to those widths cannot pass unnoticed.
const X360_STAMP: (u16, u8, u8, u8, u8, u8) = (2026, 8, 11, 23, 50, 30);

fn round_trip(stamp: (u16, u8, u8, u8, u8, u8), variant: Variant) -> DateTime {
    let dt = DateTime::new(stamp.0, stamp.1, stamp.2, stamp.3, stamp.4, stamp.5);
    let (date, time) = dt.to_fatx_encoding(variant);
    DateTime::from_fatx_encoding(date, time, variant)
}

#[test]
fn x360_timestamp_round_trips() {
    let dt = round_trip(X360_STAMP, Variant::X360);
    assert_eq!(
        (
            dt.year(),
            dt.month(),
            dt.day(),
            dt.hour(),
            dt.minute(),
            dt.second()
        ),
        X360_STAMP
    );
}

#[test]
fn xbox_timestamp_round_trips() {
    let stamp = (2003, 12, 25, 13, 24, 44);
    let dt = round_trip(stamp, Variant::Xbox);
    assert_eq!(
        (
            dt.year(),
            dt.month(),
            dt.day(),
            dt.hour(),
            dt.minute(),
            dt.second()
        ),
        stamp
    );
}

#[test]
fn the_two_variants_encode_the_same_stamp_differently() {
    let dt = DateTime::new(2026, 8, 11, 23, 50, 30);
    assert_ne!(
        dt.to_fatx_encoding(Variant::Xbox),
        dt.to_fatx_encoding(Variant::X360)
    );
}
