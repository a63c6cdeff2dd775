use dla::{encode_table, parse_table, Aggregation, Record, StdSource, Vec3d};

fn rec(id: usize, parent: usize, x: i64, y: i64, z: i64) -> Record {
    Record { id, parent, x, y, z }
}

#[test]
fn table_text() {
    let rs = vec![rec(0, 0, 0, 0, 0), rec(1, 0, 10_000, -5_000, 0), rec(12, 3, -123_456_789, 7, 99_999)];
    let bytes = encode_table(&rs);
    let text = String::from_utf8(bytes).unwrap();
    assert_eq!(
        text,
        "index,parent,x,y,z\n0,0,0.0000,0.0000,0.0000\n1,0,1.0000,-0.5000,0.0000\n12,3,-12345.6789,0.0007,9.9999\n"
    );
}

#[test]
fn empty_table() {
    let bytes = encode_table(&vec![]);
    assert_eq!(bytes, b"index,parent,x,y,z\n".to_vec());
    assert_eq!(parse_table(&bytes), Some(vec![]));
}

#[test]
fn extreme_values_round_trip() {
    let rs = vec![
        rec(usize::MAX, usize::MAX, i64::MIN, i64::MAX, -1),
        rec(0, 1, 1, -10_000, 10_000),
    ];
    assert_eq!(parse_table(&encode_table(&rs)), Some(rs));
}

#[test]
fn malformed_tables_are_refused() {
    let bad: Vec<&[u8]> = vec![
        b"",
        b"index,parent,x,y\n",
        b"index,parent,x,y,z\n0,0,0.0000,0.0000\n",
        b"index,parent,x,y,z\n0,0,0.000,0.0000,0.0000\n",
        b"index,parent,x,y,z\n00,0,0.0000,0.0000,0.0000\n",
        b"index,parent,x,y,z\n0,0,-0.0000,0.0000,0.0000\n",
        b"index,parent,x,y,z\n0,0,0.0000,0.0000,0.0000",
        b"index,parent,x,y,z\n0,0,1.0000,+1.0000,0.0000\n",
        b"index,parent,x,y,z\n18446744073709551616,0,0.0000,0.0000,0.0000\n",
        b"index,parent,x,y,z\n0,0,922337203685477.5808,0.0000,0.0000\n",
    ];
    for b in bad {
        assert_eq!(parse_table(&b.to_vec()), None);
    }
}

fn round_trip(a: &Aggregation<StdSource>) {
    let bytes = a.to_csv();
    let back = parse_table(&bytes).unwrap();
    assert_eq!(back.len(), a.point_count());
    for (i, r) in back.iter().enumerate() {
        let p = a.point_at(i);
        assert_eq!((r.id, r.parent, r.x, r.y, r.z), (i, a.parent_at(i), p.x, p.y, p.z));
    }
    assert_eq!(back, a.records());
}

#[test]
fn grown_cluster_round_trips() {
    let mut a = Aggregation::with_source(2, StdSource::seeded(9));
    a.add(Vec3d::zero(), 0);
    a.add_particle().unwrap();
    assert_eq!(a.point_count(), 2);
    round_trip(&a);
    for _ in 2..100 {
        a.add_particle().unwrap();
    }
    assert_eq!(a.point_count(), 100);
    round_trip(&a);
}

#[test]
fn three_dimensional_cluster_round_trips() {
    let mut a = Aggregation::with_source(3, StdSource::seeded(4));
    a.add(Vec3d::new(-12_345, 6_789, 1), 7);
    for _ in 0..30 {
        a.add_particle().unwrap();
    }
    round_trip(&a);
}

#[test]
fn ten_thousand_points_round_trip() {
    let mut a = Aggregation::with_source(3, StdSource::seeded(2));
    for i in 0..10_000i64 {
        a.add(Vec3d::new(i * 7_919 - 39_595_000, -i * 104_729, (i % 97) * 1_001 - 48_000), (i / 2) as usize);
    }
    assert_eq!(a.point_count(), 10_000);
    round_trip(&a);
}
