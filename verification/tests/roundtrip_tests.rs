use clickpath::codec::serialize;
use clickpath::event::ClickEvent;
use clickpath::event::ClickPath;
use clickpath::parser::deserialize;

#[test]
fn round_trip_small_log() {
    let mut path = ClickPath::new();
    path.add_click(10, 20);
    path.add_wait(50);
    path.add_click(30, 40);
    let data = serialize(&path);
    let back = deserialize(data.as_slice()).expect("well-formed encoding must decode");
    assert_eq!(back.clicks, path.clicks);
}

#[test]
fn round_trip_empty_log() {
    let path = ClickPath::new();
    let data = serialize(&path);
    assert_eq!(data, b"{\"clicks\":[]}".to_vec());
    let back = deserialize(data.as_slice()).expect("empty encoding must decode");
    assert!(back.clicks.is_empty());
}

#[test]
fn round_trip_extreme_values() {
    let mut path = ClickPath::new();
    path.add_click(i32::MIN, i32::MAX);
    path.add_click(-1, 0);
    path.add_click(0, -2147483648);
    path.add_wait(1);
    path.add_wait(2147483647);
    let data = serialize(&path);
    let back = deserialize(data.as_slice()).expect("encoding of extremes must decode");
    assert_eq!(back.clicks, path.clicks);
}

#[test]
fn round_trip_large_log() {
    let mut path = ClickPath::new();
    for i in 0..500 {
        path.add_click(i * 7 - 1000, 3000 - i);
        path.add_wait(i + 1);
    }
    let data = serialize(&path);
    let back = deserialize(data.as_slice()).expect("long encoding must decode");
    assert_eq!(back.clicks, path.clicks);
}

#[test]
fn serialize_exact_bytes() {
    let mut path = ClickPath::new();
    path.add_click(10, 20);
    path.add_wait(50);
    path.add_click(-3, 7);
    let data = serialize(&path);
    let text = String::from_utf8(data).unwrap();
    assert_eq!(
        text,
        "{\"clicks\":[{\"Click\":[10,20]},{\"Wait\":50},{\"Click\":[-3,7]}]}"
    );
}

#[test]
fn deserialize_rejects_malformed() {
    let cases: Vec<&[u8]> = vec![
        b"",
        b"{}",
        b"{\"clicks\":[",
        b"{\"clicks\":]}",
        b"{\"clicks\":[]}extra",
        b"{\"clicks\":[{\"Click\":[1]}]}",
        b"{\"clicks\":[{\"Click\":[1,2,3]}]}",
        b"{\"clicks\":[{\"Tap\":[1,2]}]}",
        b"{\"clicks\":[{\"Wait\":}]}",
        b"{\"clicks\":[{\"Wait\":-}]}",
        b"{\"clicks\":[{\"Wait\":007}]}",
        b"{\"clicks\":[{\"Wait\":-0}]}",
        b"{\"clicks\":[{\"Wait\":2147483648}]}",
        b"{\"clicks\":[{\"Click\":[-2147483649,0]}]}",
        b"{\"clicks\":[{\"Wait\":99999999999999999999}]}",
        b"{\"clicks\":[{\"Wait\":5},]}",
        b"{\"clicks\":[{\"Wait\":5}{\"Wait\":6}]}",
        b"{\"clicks\":[{\"Wait\":5}]",
        b"[{\"Wait\":5}]",
    ];
    for data in cases {
        assert!(
            deserialize(data).is_none(),
            "malformed input must be refused: {:?}",
            String::from_utf8_lossy(data)
        );
    }
}

#[test]
fn deserialize_accepts_boundary_values() {
    let data: &[u8] = b"{\"clicks\":[{\"Click\":[-2147483648,2147483647]},{\"Wait\":0}]}";
    let back = deserialize(data).expect("boundary values are in range");
    assert_eq!(
        back.clicks,
        vec![ClickEvent::Click(i32::MIN, i32::MAX), ClickEvent::Wait(0)]
    );
}
