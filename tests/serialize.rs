use playform::serialize::{decode, encode, MemStream};

#[derive(Debug, PartialEq, Eq, Clone)]
struct Foo {
    data: Vec<(i32, u64)>,
    t: i8,
}

#[derive(Debug, PartialEq, Eq, Clone)]
struct Bar {
    t: u32,
    items: Foo,
}

#[derive(Debug, PartialEq, Eq, Clone)]
struct Baz {
    foo: Foo,
    thing: i8,
    bar: Bar,
}

type FooParts = (Vec<(i32, u64)>, i8);
type BazParts = (FooParts, (i8, (u32, FooParts)));

fn foo_parts(f: &Foo) -> FooParts {
    (f.data.clone(), f.t)
}

fn foo_of(p: FooParts) -> Foo {
    Foo { data: p.0, t: p.1 }
}

fn baz_parts(b: &Baz) -> BazParts {
    (foo_parts(&b.foo), (b.thing, (b.bar.t, foo_parts(&b.bar.items))))
}

fn baz_of(p: BazParts) -> Baz {
    Baz {
        foo: foo_of(p.0),
        thing: p.1 .0,
        bar: Bar { t: p.1 .1 .0, items: foo_of(p.1 .1 .1) },
    }
}

#[test]
fn simple_test() {
    let baz = Baz {
        foo: Foo { data: vec![(1, 1), (2, 4), (3, 255)], t: 118 },
        thing: 3,
        bar: Bar { t: 7, items: Foo { data: vec![(0, 8), (3, 9), (6, 10)], t: -3 } },
    };
    let encoded = encode(&baz_parts(&baz)).unwrap();
    println!("encoded baz: {:?}", encoded);
    let rebaz: BazParts = decode(encoded.as_slice()).unwrap();
    assert_eq!(baz, baz_of(rebaz));
}

#[test]
fn integers_are_little_endian() {
    assert_eq!(encode(&0x0102_0304u32).unwrap(), vec![4, 3, 2, 1]);
    assert_eq!(encode(&-1i32).unwrap(), vec![255, 255, 255, 255]);
    assert_eq!(encode(&-2i8).unwrap(), vec![254]);
    assert_eq!(encode(&0x0102u64).unwrap(), vec![2, 1, 0, 0, 0, 0, 0, 0]);
}

#[test]
fn vector_has_length_prefix() {
    let v: Vec<u8> = vec![9, 8];
    assert_eq!(encode(&v).unwrap(), vec![2, 0, 0, 0, 9, 8]);
    let empty: Vec<u32> = Vec::new();
    assert_eq!(encode(&empty).unwrap(), vec![0, 0, 0, 0]);
}

#[test]
fn signed_values_round_trip() {
    for v in [i32::MIN, -70000, -1, 0, 1, i32::MAX] {
        let b = encode(&v).unwrap();
        assert_eq!(decode::<i32>(&b).unwrap(), v);
    }
    for v in [i16::MIN, -1, 0, i16::MAX] {
        let b = encode(&v).unwrap();
        assert_eq!(decode::<i16>(&b).unwrap(), v);
    }
}

#[test]
fn short_input_is_eof() {
    assert!(decode::<u32>(&[1, 2, 3]).is_err());
    assert!(decode::<Vec<u8>>(&[3, 0, 0, 0, 1, 2]).is_err());
}

#[test]
fn mem_stream_take() {
    let data = [1u8, 2, 3, 4, 5];
    let mut s = MemStream::new(&data);
    assert_eq!(s.take(2).unwrap(), &[1, 2]);
    assert_eq!(s.take(3).unwrap(), &[3, 4, 5]);
    assert!(s.take(1).is_err());
    assert_eq!(s.take(0).unwrap().len(), 0);
}

#[test]
fn mem_stream_take_past_end_keeps_position() {
    let data = [7u8, 8, 9];
    let mut s = MemStream::new(&data);
    assert!(s.take(4).is_err());
    assert_eq!(s.take(3).unwrap(), &[7, 8, 9]);
}
