use digmake::types::Position;

#[test]
fn packs_each_coordinate_into_its_field() {
    assert_eq!(Position { x: 0, y: 0, z: 0 }.pack(), 0);
    assert_eq!(Position { x: 1, y: 0, z: 0 }.pack(), 1u64 << 38);
    assert_eq!(Position { x: 0, y: 1, z: 0 }.pack(), 1);
    assert_eq!(Position { x: 0, y: 0, z: 1 }.pack(), 1u64 << 12);
    assert_eq!(Position { x: -1, y: -1, z: -1 }.pack(), u64::MAX);
    assert_eq!(Position { x: 18357644, y: 831, z: -20882616 }.pack(), 0x4607_632C_15B4_833F);
}

#[test]
fn unpacks_and_extends_the_sign() {
    assert_eq!(Position::unpack(0), Position { x: 0, y: 0, z: 0 });
    assert_eq!(Position::unpack(u64::MAX), Position { x: -1, y: -1, z: -1 });
    assert_eq!(
        Position::unpack(0x4607_632C_15B4_833F),
        Position { x: 18357644, y: 831, z: -20882616 }
    );
    assert_eq!(Position::unpack(1u64 << 37), Position { x: 0, y: 0, z: -33554432 });
    assert_eq!(Position::unpack(1u64 << 11), Position { x: 0, y: -2048, z: 0 });
    assert_eq!(Position::unpack(1u64 << 63), Position { x: -33554432, y: 0, z: 0 });
}

#[test]
fn round_trip_at_the_edges_of_the_ranges() {
    let xs = [-(1 << 25), -(1 << 25) + 1, -1, 0, 1, (1 << 25) - 2, (1 << 25) - 1];
    let ys = [-(1 << 11), -(1 << 11) + 1, -1, 0, 1, (1 << 11) - 2, (1 << 11) - 1];
    for x in xs {
        for y in ys {
            for z in xs {
                let p = Position { x, y: y as i16, z };
                assert_eq!(Position::unpack(p.pack()), p);
            }
        }
    }
}

#[test]
fn coordinates_out_of_range_keep_their_low_bits() {
    let p = Position { x: 1 << 25, y: 1 << 11, z: (1 << 26) + 5 };
    assert_eq!(Position::unpack(p.pack()), Position { x: -(1 << 25), y: -(1 << 11), z: 5 });
}
