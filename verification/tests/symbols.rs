use mbn::error::Error;
use mbn::symbol_map::SymbolMap;
use mbn::symbols::{Instrument, Vendors};
use time::{Date, Month};

#[test]
fn test_vendors_into_str() {
    let vendor = Vendors::Databento;
    let vendor_str: String = vendor.into();
    assert_eq!("databento", vendor_str);
}

#[test]
fn test_vendors_from_str() {
    let vendor_str = "databento";
    let vendor = Vendors::try_from(vendor_str).expect("Error convert to Vendors.");
    assert_eq!(vendor, Vendors::Databento);
}

#[test]
fn test_instrument_first_offsetdatetime() {
    let ticker = "AAPL";
    let name = "Apple Inc.";
    let instrument = Instrument::new(
        None,
        ticker,
        name,
        Vendors::Databento,
        Some("continuous".to_string()),
        Some("GLBX.MDP3".to_string()),
        1730419200000000000,
        1730419200000000000,
        true,
    );
    let date = instrument
        .first_available_datetime()
        .expect("Error getting date");
    let expected_date = Date::from_calendar_date(2024, Month::November, 1)
        .unwrap()
        .midnight()
        .assume_utc();
    assert_eq!(expected_date, date);
}

#[test]
fn test_instrument_last_offsetdatetime() {
    let ticker = "AAPL";
    let name = "Apple Inc.";
    let instrument = Instrument::new(
        None,
        ticker,
        name,
        Vendors::Databento,
        Some("continuous".to_string()),
        Some("GLBX.MDP3".to_string()),
        1730419200000000000,
        1730419200000000000,
        true,
    );
    let date = instrument
        .last_available_datetime()
        .expect("Error getting date");
    let expected_date = Date::from_calendar_date(2024, Month::November, 1)
        .unwrap()
        .midnight()
        .assume_utc();
    assert_eq!(expected_date, date);
}

#[test]
fn test_instrument() {
    let ticker = "AAPL";
    let name = "Apple Inc.";
    let instrument = Instrument::new(
        None,
        ticker,
        name,
        Vendors::Databento,
        Some("continuous".to_string()),
        Some("GLBX.MDP3".to_string()),
        1,
        1,
        true,
    );
    assert_eq!(instrument.ticker, ticker);
    assert_eq!(instrument.name, name);
    assert_eq!(instrument.instrument_id, None);
}

#[test]
fn test_symbol_map() {
    let appl = "AAPL";
    let tsla = "TSLA";
    let mut symbol_map = SymbolMap::new();
    symbol_map.add_instrument(appl, 1);
    symbol_map.add_instrument(tsla, 2);
    let ticker1 = symbol_map.get_instrument_ticker(1).unwrap();
    assert_eq!(&ticker1, appl);
    let ticker2 = symbol_map.get_instrument_ticker(2).unwrap();
    assert_eq!(&ticker2, tsla);
}

#[test]
fn vendor_names_are_read_in_any_case() {
    assert_eq!(Vendors::try_from("DataBento").unwrap(), Vendors::Databento);
    assert_eq!(Vendors::try_from("YFINANCE").unwrap(), Vendors::Yfinance);
    assert_eq!(Vendors::try_from("yfinance").unwrap(), Vendors::Yfinance);
}

#[test]
fn unknown_vendor_is_an_error() {
    match Vendors::try_from("bloomberg") {
        Err(Error::CustomError(msg)) => assert_eq!(msg, "Invalid vendor name."),
        other => panic!("unexpected {:?}", other),
    }
}

#[test]
fn vendor_name_reads_back() {
    for v in [Vendors::Databento, Vendors::Yfinance] {
        let name: String = v.clone().into();
        assert_eq!(Vendors::try_from(name.as_str()).unwrap(), v);
    }
    let name: String = Vendors::Yfinance.into();
    assert_eq!(name, "yfinance");
}

#[test]
fn lowercase_name_is_matched_exactly() {
    assert_eq!(Vendors::from_lowercase_name("databento").unwrap(), Vendors::Databento);
    assert!(Vendors::from_lowercase_name("DataBento").is_err());
}

#[test]
fn instrument_keeps_its_fields() {
    let instrument = Instrument::new(
        Some(7),
        "ESZ4",
        "E-mini",
        Vendors::Yfinance,
        None,
        Some("GLBX.MDP3".to_string()),
        20,
        10,
        false,
    );
    assert_eq!(instrument.instrument_id, Some(7));
    assert_eq!(instrument.vendor, "yfinance");
    assert_eq!(instrument.stype, None);
    assert_eq!(instrument.dataset, Some("GLBX.MDP3".to_string()));
    assert_eq!(instrument.last_available, 20);
    assert_eq!(instrument.first_available, 10);
    assert!(!instrument.active);
}

#[test]
fn largest_timestamp_is_a_date() {
    let instrument = Instrument::new(None, "A", "B", Vendors::Databento, None, None, u64::MAX, 0, true);
    let last = instrument.last_available_datetime().unwrap();
    assert_eq!(last.year(), 2554);
    let first = instrument.first_available_datetime().unwrap();
    assert_eq!(first.unix_timestamp_nanos(), 0);
}

#[test]
fn missing_id_has_no_ticker() {
    let mut symbol_map = SymbolMap::new();
    assert_eq!(symbol_map.get_instrument_ticker(3), None);
    symbol_map.add_instrument("AAPL", 3);
    symbol_map.add_instrument("MSFT", 3);
    assert_eq!(symbol_map.get_instrument_ticker(3).unwrap(), "MSFT");
    assert_eq!(symbol_map.map.len(), 1);
}

#[test]
fn merge_prefers_the_other_map() {
    let mut a = SymbolMap::new();
    a.add_instrument("AAPL", 1);
    a.add_instrument("OLD", 2);
    let mut b = SymbolMap::new();
    b.add_instrument("NEW", 2);
    b.add_instrument("TSLA", 3);
    a.merge(&b);
    assert_eq!(a.map.len(), 3);
    assert_eq!(a.get_instrument_ticker(1).unwrap(), "AAPL");
    assert_eq!(a.get_instrument_ticker(2).unwrap(), "NEW");
    assert_eq!(a.get_instrument_ticker(3).unwrap(), "TSLA");
    assert_eq!(b.map.len(), 2);
}

#[test]
fn serialize_single_entry_layout() {
    let mut m = SymbolMap::new();
    m.add_instrument("AB", 0x0102_0304);
    let bytes = m.serialize();
    assert_eq!(bytes, vec![1, 0, 0, 0, 4, 3, 2, 1, 2, 0, 0, 0, b'A', b'B']);
}

#[test]
fn serialize_empty_map() {
    let m = SymbolMap::new();
    assert_eq!(m.serialize(), vec![0, 0, 0, 0]);
}

#[test]
fn serialize_then_deserialize_round_trips() {
    let mut m = SymbolMap::new();
    m.add_instrument("AAPL", 1);
    m.add_instrument("TSLA", 2);
    m.add_instrument("Zürich", 40000);
    let body = m.serialize();
    let mut bytes = vec![9, 9, 9];
    bytes.extend_from_slice(&body);
    bytes.extend_from_slice(&[7, 7]);
    let mut offset = 3;
    let back = SymbolMap::deserialize(&bytes, &mut offset).unwrap();
    assert_eq!(offset, 3 + body.len());
    assert_eq!(back.map, m.map);
}

#[test]
fn deserialize_rejects_invalid_utf8() {
    let bytes = vec![1, 0, 0, 0, 5, 0, 0, 0, 2, 0, 0, 0, 0xff, 0xfe];
    let mut offset = 0;
    match SymbolMap::deserialize(&bytes, &mut offset) {
        Err(e) => assert_eq!(e.kind(), std::io::ErrorKind::InvalidData),
        other => panic!("unexpected {:?}", other),
    }
    assert_eq!(offset, 12);
}

#[test]
fn deserialize_later_entry_overrides() {
    let bytes = vec![2, 0, 0, 0, 1, 0, 0, 0, 1, 0, 0, 0, b'X', 1, 0, 0, 0, 1, 0, 0, 0, b'Y'];
    let mut offset = 0;
    let m = SymbolMap::deserialize(&bytes, &mut offset).unwrap();
    assert_eq!(offset, bytes.len());
    assert_eq!(m.map.len(), 1);
    assert_eq!(m.get_instrument_ticker(1).unwrap(), "Y");
}

#[test]
fn readable_only_when_fields_are_inside() {
    let mut m = SymbolMap::new();
    m.add_instrument("AAPL", 1);
    let bytes = m.serialize();
    assert!(SymbolMap::is_readable(&bytes, 0));
    assert!(!SymbolMap::is_readable(&bytes[..bytes.len() - 1], 0));
    assert!(!SymbolMap::is_readable(&bytes, 1));
    assert!(!SymbolMap::is_readable(&bytes, 100));
    assert!(!SymbolMap::is_readable(&[1, 0, 0], 0));
}

#[test]
fn readable_when_bad_text_comes_before_the_end() {
    // two entries announced, the first ticker is not UTF-8, the second is cut off
    let bytes = vec![2, 0, 0, 0, 5, 0, 0, 0, 1, 0, 0, 0, 0xff, 6, 0];
    assert!(SymbolMap::is_readable(&bytes, 0));
    let mut offset = 0;
    let err = SymbolMap::deserialize(&bytes, &mut offset).unwrap_err();
    assert_eq!(err.kind(), std::io::ErrorKind::InvalidData);
    assert_eq!(offset, 12);
}
