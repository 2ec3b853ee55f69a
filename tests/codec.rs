use bid_ask_tcp::date_time::{
    deserialize_date, parse_date_time, push_with_leading_zero, serialize_date,
};
use chrono::{Datelike, Timelike};
use bid_ask_tcp::serializer::{READ_BUFFER_CAPACITY, PING_PACKET_IS_SINGLETONE};
use bid_ask_tcp::{
    BidAskTcpContract, BidAskTcpDateTime, BidAskTcpModel, BidAskTcpSerializer, CodecError,
    Generation, ReadingTcpContractFail, UtcDateTime,
};

fn now() -> UtcDateTime {
    let t = chrono::Utc::now();
    let micros = (t.nanosecond() / 1000).min(999_999);
    UtcDateTime::new(
        t.year() as u32,
        t.month(),
        t.day(),
        t.hour(),
        t.minute(),
        t.second(),
        micros,
    )
    .unwrap()
}

fn sample_date() -> UtcDateTime {
    UtcDateTime::new(2022, 9, 21, 12, 33, 48, 100_000).unwrap()
}

fn sample_record(date: UtcDateTime) -> BidAskTcpModel {
    BidAskTcpModel {
        ask_price: "1.13408000".to_string(),
        bid_price: "1.13401000".to_string(),
        id: "GBPUSD".to_string(),
        date,
        bid_volume: "1.14545".to_string(),
        ask_volume: "2.16566".to_string(),
    }
}

#[test]
fn test_ser_der() {
    let bidask = sample_record(now());

    let serialized = bidask.serialize(Generation::Extended);
    let deserialized = BidAskTcpModel::deserialize(serialized.as_slice()).unwrap();

    assert_eq!(deserialized.id, "GBPUSD");
    assert_eq!(deserialized.bid_price.to_string(), "1.13401000");
    assert_eq!(deserialized.ask_price.to_string(), "1.13408000");
    assert_eq!(deserialized.bid_volume.to_string(), "1.14545");
    assert_eq!(deserialized.ask_volume.to_string(), "2.16566");
    assert_eq!(deserialized.date, bidask.date);
}

#[test]
fn tcp_contract_test_parse() {
    let date = now();
    let data_str = format!("GBPUSD {} 1.13401000 1.1 1.13408000 1.2", date.to_rfc3339());

    let deserialized = BidAskTcpModel::deserialize(data_str.as_bytes()).unwrap();

    assert_eq!(deserialized.id, "GBPUSD");
    assert_eq!(deserialized.bid_price.to_string(), "1.13401000");
    assert_eq!(deserialized.ask_price.to_string(), "1.13408000");
    assert_eq!(date.to_rfc3339(), deserialized.date.to_rfc3339());
}

#[test]
fn tcp_date_time_test_parse() {
    let result =
        BidAskTcpModel::deserialize(b"GBPUSD 20220921123348100 1.13401000 1.13408000").unwrap();

    let date_time = BidAskTcpDateTime::Our(result.date);
    let date_time = date_time.unwrap_as_our_date();

    assert_eq!("2022-09-21T12:33:48.100", &date_time.to_rfc3339()[..23]);
}

#[test]
fn example_compact_record_fields() {
    let r = BidAskTcpModel::deserialize(b"GBPUSD 20220921123348100 1.13401000 1.13408000").unwrap();
    assert_eq!(r.id, "GBPUSD");
    assert_eq!(r.bid_price, "1.13401000");
    assert_eq!(r.ask_price, "1.13408000");
    assert_eq!(r.bid_volume, "");
    assert_eq!(r.ask_volume, "");
    assert_eq!(r.date, sample_date());
}

#[test]
fn heartbeats_parse_and_classify() {
    let ping = BidAskTcpContract::parse(b"PING").unwrap();
    assert!(ping.is_ping());
    assert!(!ping.is_pong());
    assert!(!ping.is_bid_ask());
    let pong = BidAskTcpContract::parse(b"PONG").unwrap();
    assert!(pong.is_pong());
    assert!(!pong.is_ping());
    let quote =
        BidAskTcpContract::parse(b"GBPUSD O20220921123348100 1.13401000 1.13408000").unwrap();
    assert!(quote.is_bid_ask());
    assert!(!quote.is_pong());
    assert!(!quote.is_ping());
}

#[test]
fn heartbeat_tokens_are_case_sensitive() {
    assert_eq!(BidAskTcpContract::parse(b"ping").unwrap_err(), CodecError::MalformedRecord);
    assert_eq!(BidAskTcpContract::parse(b"PINGS").unwrap_err(), CodecError::MalformedRecord);
}

#[test]
fn six_fields_decode_as_extended() {
    let r = BidAskTcpModel::deserialize(
        b"EURUSD 2022-09-21T12:33:48.123456+00:00 1.1 10 1.2 20",
    )
    .unwrap();
    assert_eq!(r.date, UtcDateTime::new(2022, 9, 21, 12, 33, 48, 123_456).unwrap());
    assert_eq!(r.bid_volume, "10");
    assert_eq!(r.ask_volume, "20");
    assert_eq!(r.ask_price, "1.2");
}

#[test]
fn four_fields_decode_as_compact() {
    let r = BidAskTcpModel::deserialize(b"EURUSD O20220921123348123456 1.1 1.2").unwrap();
    assert_eq!(r.date, UtcDateTime::new(2022, 9, 21, 12, 33, 48, 123_456).unwrap());
    assert_eq!(r.bid_price, "1.1");
    assert_eq!(r.ask_price, "1.2");
}

#[test]
fn five_fields_are_malformed() {
    let r = BidAskTcpModel::deserialize(b"EURUSD O20220921123348100 1.1 1.2 3");
    assert_eq!(r.unwrap_err(), CodecError::MalformedRecord);
    let r = BidAskTcpContract::parse(b"EURUSD O20220921123348100 1.1 1.2 3");
    assert_eq!(r.unwrap_err(), CodecError::MalformedRecord);
}

#[test]
fn mismatched_timestamp_forms_are_malformed() {
    let r = BidAskTcpModel::deserialize(b"EURUSD O20220921123348100 1.1 10 1.2 20");
    assert_eq!(r.unwrap_err(), CodecError::MalformedRecord);
    let r = BidAskTcpModel::deserialize(b"EURUSD 2022-09-21T12:33:48.100+00:00 1.1 1.2");
    assert_eq!(r.unwrap_err(), CodecError::MalformedRecord);
}

#[test]
fn invalid_text_or_date_is_malformed() {
    let r = BidAskTcpModel::deserialize(b"EUR\xffUSD O20220921123348100 1.1 1.2");
    assert_eq!(r.unwrap_err(), CodecError::MalformedRecord);
    let r = BidAskTcpModel::deserialize(b"EURUSD O20221321123348100 1.1 1.2");
    assert_eq!(r.unwrap_err(), CodecError::MalformedRecord);
    let r = BidAskTcpModel::deserialize(b"EURUSD O20230229123348100 1.1 1.2");
    assert_eq!(r.unwrap_err(), CodecError::MalformedRecord);
    let r = BidAskTcpModel::deserialize(b"EURUSD O2022092112334 1.1 1.2");
    assert_eq!(r.unwrap_err(), CodecError::MalformedRecord);
    let r = BidAskTcpModel::deserialize(b"EURUSD O202209211233481234567 1.1 1.2");
    assert_eq!(r.unwrap_err(), CodecError::MalformedRecord);
}

#[test]
fn non_ascii_text_round_trips() {
    let mut r = sample_record(sample_date());
    r.id = "ÉUR€".to_string();
    let back = BidAskTcpModel::deserialize(&r.serialize(Generation::Compact)).unwrap();
    assert_eq!(back.id, "ÉUR€");
}

#[test]
fn fraction_scaling() {
    let t = |s: &[u8]| BidAskTcpDateTime::parse(s).unwrap().unwrap_as_our_date().microsecond;
    assert_eq!(t(b"O202209211233481"), 100_000);
    assert_eq!(t(b"O20220921123348100"), 100_000);
    assert_eq!(t(b"O20220921123348100000"), 100_000);
    assert_eq!(t(b"O202209211233480"), 0);
    assert_eq!(t(b"O20220921123348000"), 0);
    assert_eq!(t(b"O2022092112334812"), 120_000);
    assert_eq!(t(b"O2022092112334812345"), 123_450);
}

#[test]
fn compact_encoding_fraction_width() {
    let mut out = Vec::new();
    BidAskTcpDateTime::Our(sample_date()).serialize(&mut out);
    assert_eq!(out, b"O20220921123348100".to_vec());

    let mut out = Vec::new();
    let t = UtcDateTime::new(2022, 1, 2, 3, 4, 5, 123_456).unwrap();
    BidAskTcpDateTime::Our(t).serialize(&mut out);
    assert_eq!(out, b"O20220102030405123456".to_vec());

    let mut out = Vec::new();
    let t = UtcDateTime::new(999, 1, 2, 3, 4, 5, 5_000).unwrap();
    BidAskTcpDateTime::Our(t).serialize(&mut out);
    assert_eq!(out, b"O09990102030405005".to_vec());

    let mut out = Vec::new();
    let t = UtcDateTime::new(2022, 1, 2, 3, 4, 5, 0).unwrap();
    BidAskTcpDateTime::Our(t).serialize(&mut out);
    assert_eq!(out, b"O20220102030405000".to_vec());
}

#[test]
fn extended_encoding_and_parsing() {
    assert_eq!(serialize_date(&sample_date()), b"2022-09-21T12:33:48.100000+00:00".to_vec());
    assert_eq!(sample_date().to_rfc3339(), "2022-09-21T12:33:48.100000+00:00");
    assert_eq!(deserialize_date(b"2022-09-21T12:33:48.1Z").unwrap(), sample_date());
    assert_eq!(
        deserialize_date(b"2022-09-21T12:33:48Z").unwrap(),
        UtcDateTime::new(2022, 9, 21, 12, 33, 48, 0).unwrap()
    );
    assert_eq!(
        deserialize_date(b"2022-09-21T12:33:48.100+02:00").unwrap(),
        UtcDateTime::new(2022, 9, 21, 10, 33, 48, 100_000).unwrap()
    );
    assert_eq!(
        deserialize_date(b"2022-09-21T12:33:48-00:00").unwrap(),
        UtcDateTime::new(2022, 9, 21, 12, 33, 48, 0).unwrap()
    );
    assert_eq!(
        deserialize_date(b"2022-09-21T12:33:48.100+24:00").unwrap_err(),
        CodecError::MalformedRecord
    );
    assert_eq!(
        deserialize_date(b"2022-09-21T12:33:48.100+02:60").unwrap_err(),
        CodecError::MalformedRecord
    );
    assert_eq!(
        deserialize_date(b"2022-09-21T12:33:48.100+0200").unwrap_err(),
        CodecError::MalformedRecord
    );
    assert_eq!(deserialize_date(b"2022-09-21 12:33:48Z").unwrap_err(), CodecError::MalformedRecord);
    assert_eq!(deserialize_date(b"\xff").unwrap_err(), CodecError::MalformedRecord);
}

#[test]
fn offsets_carry_across_days() {
    assert_eq!(
        deserialize_date(b"2022-12-31T20:00:00-05:00").unwrap(),
        UtcDateTime::new(2023, 1, 1, 1, 0, 0, 0).unwrap()
    );
    assert_eq!(
        deserialize_date(b"2022-03-01T01:00:00+02:00").unwrap(),
        UtcDateTime::new(2022, 2, 28, 23, 0, 0, 0).unwrap()
    );
    assert_eq!(
        deserialize_date(b"2024-03-01T01:30:00.5+05:30").unwrap(),
        UtcDateTime::new(2024, 2, 29, 20, 0, 0, 500_000).unwrap()
    );
    assert_eq!(
        deserialize_date(b"2022-01-01T00:15:00+01:00").unwrap(),
        UtcDateTime::new(2021, 12, 31, 23, 15, 0, 0).unwrap()
    );
    assert_eq!(
        deserialize_date(b"2022-04-30T23:00:00-02:00").unwrap(),
        UtcDateTime::new(2022, 5, 1, 1, 0, 0, 0).unwrap()
    );
    assert_eq!(
        deserialize_date(b"9999-12-31T23:00:00-02:00").unwrap_err(),
        CodecError::MalformedRecord
    );
    let r = BidAskTcpModel::deserialize(b"EURUSD 2022-09-21T12:33:48+02:00 1.1 10 1.2 20").unwrap();
    assert_eq!(r.date, UtcDateTime::new(2022, 9, 21, 10, 33, 48, 0).unwrap());
}

#[test]
fn record_round_trip_both_generations() {
    let r = sample_record(UtcDateTime::new(2024, 2, 29, 23, 59, 59, 999_999).unwrap());
    let ext = BidAskTcpModel::deserialize(&r.serialize(Generation::Extended)).unwrap();
    assert_eq!(ext.id, r.id);
    assert_eq!(ext.bid_price, r.bid_price);
    assert_eq!(ext.ask_price, r.ask_price);
    assert_eq!(ext.bid_volume, r.bid_volume);
    assert_eq!(ext.ask_volume, r.ask_volume);
    assert_eq!(ext.date, r.date);
    let compact = BidAskTcpModel::deserialize(&r.serialize(Generation::Compact)).unwrap();
    assert_eq!(compact.id, r.id);
    assert_eq!(compact.bid_price, r.bid_price);
    assert_eq!(compact.ask_price, r.ask_price);
    assert_eq!(compact.date, r.date);
    assert_eq!(compact.bid_volume, "");
}

#[test]
fn record_encodings_exact() {
    let r = sample_record(sample_date());
    assert_eq!(
        r.serialize(Generation::Extended),
        b"GBPUSD 2022-09-21T12:33:48.100000+00:00 1.13401000 1.14545 1.13408000 2.16566".to_vec()
    );
    assert_eq!(
        r.serialize(Generation::Compact),
        b"GBPUSD O20220921123348100 1.13401000 1.13408000".to_vec()
    );
}

#[test]
fn framing_round_trip_each_variant() {
    let mut s = BidAskTcpSerializer::new();
    let framed = s.serialize(BidAskTcpContract::Ping);
    assert_eq!(framed, b"PING\r\n".to_vec());
    assert!(s.deserialize(Ok(framed)).unwrap().is_ping());

    let framed = s.serialize_ref(&BidAskTcpContract::Pong);
    assert_eq!(framed, b"PONG\r\n".to_vec());
    assert!(s.deserialize(Ok(framed)).unwrap().is_pong());

    let quote = BidAskTcpContract::BidAsk(sample_record(sample_date()));
    let framed = s.serialize_ref(&quote);
    assert!(framed.ends_with(b"\r\n"));
    match s.deserialize(Ok(framed)).unwrap() {
        BidAskTcpContract::BidAsk(r) => {
            assert_eq!(r.id, "GBPUSD");
            assert_eq!(r.bid_volume, "1.14545");
            assert_eq!(r.date, sample_date());
        }
        _ => panic!("expected a record"),
    }

    let mut c = BidAskTcpSerializer::with_generation(Generation::Compact);
    let framed = c.serialize(quote);
    assert_eq!(framed, b"GBPUSD O20220921123348100 1.13401000 1.13408000\r\n".to_vec());
    assert!(c.deserialize(Ok(framed)).unwrap().is_bid_ask());
}

#[test]
fn deserialize_failures() {
    let mut s = BidAskTcpSerializer::new();
    assert_eq!(
        s.deserialize(Err(ReadingTcpContractFail::SizeExceeded)).unwrap_err(),
        ReadingTcpContractFail::SizeExceeded
    );
    assert_eq!(
        s.deserialize(Err(ReadingTcpContractFail::ConnectionEnded)).unwrap_err(),
        ReadingTcpContractFail::ConnectionEnded
    );
    assert_eq!(
        s.deserialize(Ok(b"PING".to_vec())).unwrap_err(),
        ReadingTcpContractFail::UnreadableContract
    );
    assert_eq!(
        s.deserialize(Ok(b"A B C\r\n".to_vec())).unwrap_err(),
        ReadingTcpContractFail::UnreadableContract
    );
}

#[test]
fn read_until_end_marker_bounds() {
    let s = BidAskTcpSerializer::new();
    assert_eq!(s.read_until_end_marker(b"PING\r\nPONG\r\n"), Ok(6));
    assert_eq!(s.read_until_end_marker(b"PING\r"), Err(ReadingTcpContractFail::ConnectionEnded));
    assert_eq!(s.read_until_end_marker(b""), Err(ReadingTcpContractFail::ConnectionEnded));
    let full = vec![b'a'; READ_BUFFER_CAPACITY];
    assert_eq!(s.read_until_end_marker(&full), Err(ReadingTcpContractFail::SizeExceeded));
    let mut late = vec![b'a'; READ_BUFFER_CAPACITY];
    late.extend_from_slice(b"\r\n");
    assert_eq!(s.read_until_end_marker(&late), Err(ReadingTcpContractFail::SizeExceeded));
    let mut edge = vec![b'a'; READ_BUFFER_CAPACITY - 2];
    edge.extend_from_slice(b"\r\n");
    assert_eq!(s.read_until_end_marker(&edge), Ok(READ_BUFFER_CAPACITY));
}

#[test]
fn heartbeats_are_fresh_and_stateless() {
    let mut s = BidAskTcpSerializer::new();
    assert!(!PING_PACKET_IS_SINGLETONE);
    assert!(s.get_ping().is_ping());
    assert!(!s.apply_packet(&BidAskTcpContract::Pong));
    assert_eq!(s.generation, Generation::Extended);
}

#[test]
fn leading_zero_digits() {
    let mut out = Vec::new();
    push_with_leading_zero(&mut out, 7);
    push_with_leading_zero(&mut out, 42);
    push_with_leading_zero(&mut out, 0);
    push_with_leading_zero(&mut out, 123);
    assert_eq!(out, b"074200123".to_vec());
}

#[test]
fn date_validation() {
    assert!(UtcDateTime::new(2024, 2, 29, 0, 0, 0, 0).is_some());
    assert!(UtcDateTime::new(2023, 2, 29, 0, 0, 0, 0).is_none());
    assert!(UtcDateTime::new(1900, 2, 29, 0, 0, 0, 0).is_none());
    assert!(UtcDateTime::new(2000, 2, 29, 0, 0, 0, 0).is_some());
    assert!(UtcDateTime::new(2022, 4, 31, 0, 0, 0, 0).is_none());
    assert!(UtcDateTime::new(10000, 1, 1, 0, 0, 0, 0).is_none());
    assert!(UtcDateTime::new(2022, 1, 1, 24, 0, 0, 0).is_none());
    assert!(UtcDateTime::new(2022, 1, 1, 0, 0, 0, 1_000_000).is_none());
}

#[test]
fn parse_date_time_scales_fraction() {
    let t = parse_date_time(b"O202209211233481").unwrap();
    assert_eq!(t, sample_date());
    let t = parse_date_time(b"20220921123348100000").unwrap();
    assert_eq!(t, sample_date());
    assert_eq!(parse_date_time(b"O202209211233480").unwrap().microsecond, 0);
    assert!(parse_date_time(b"X20220921123348100").is_none());
}
