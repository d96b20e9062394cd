use parity_scale_codec::{Compact, Decode, Encode, Error, HasCompact, Input, Output};

#[derive(Debug, PartialEq)]
struct Unit;

impl Encode for Unit {
    fn encode_to<W: Output>(&self, _dest: &mut W) {}
}

impl Decode for Unit {
    fn decode<I: Input>(_input: &mut I) -> Result<Self, Error> {
        Ok(Unit)
    }
}

#[derive(Debug, PartialEq)]
struct Indexed(u32, u64);

impl Encode for Indexed {
    fn encode_to<W: Output>(&self, dest: &mut W) {
        self.0.encode_to(dest);
        self.1.encode_to(dest);
    }
}

impl Decode for Indexed {
    fn decode<I: Input>(input: &mut I) -> Result<Self, Error> {
        Ok(Indexed(u32::decode(input)?, u64::decode(input)?))
    }
}

#[derive(Debug, PartialEq)]
struct Struct<A, B, C> {
    pub a: A,
    pub b: B,
    pub c: C,
}

impl<A: Encode, B: Encode, C: Encode> Encode for Struct<A, B, C> {
    fn encode_to<W: Output>(&self, dest: &mut W) {
        self.a.encode_to(dest);
        self.b.encode_to(dest);
        self.c.encode_to(dest);
    }
}

impl<A: Decode, B: Decode, C: Decode> Decode for Struct<A, B, C> {
    fn decode<I: Input>(input: &mut I) -> Result<Self, Error> {
        Ok(Struct { a: A::decode(input)?, b: B::decode(input)?, c: C::decode(input)? })
    }
}

type TestType = Struct<u32, u64, Vec<u8>>;

impl<A, B, C> Struct<A, B, C> {
    fn new(a: A, b: B, c: C) -> Self {
        Self { a, b, c }
    }
}

#[derive(Debug, PartialEq)]
enum EnumType {
    A,
    B(u32, u64),
    C { a: u32, b: u64 },
}

impl Encode for EnumType {
    fn encode_to<W: Output>(&self, dest: &mut W) {
        match self {
            EnumType::A => dest.push_byte(15),
            EnumType::B(a, b) => {
                dest.push_byte(1);
                a.encode_to(dest);
                b.encode_to(dest);
            },
            EnumType::C { a, b } => {
                dest.push_byte(2);
                a.encode_to(dest);
                b.encode_to(dest);
            },
        }
    }
}

impl Decode for EnumType {
    fn decode<I: Input>(input: &mut I) -> Result<Self, Error> {
        match input.read_byte()? {
            15 => Ok(EnumType::A),
            1 => Ok(EnumType::B(u32::decode(input)?, u64::decode(input)?)),
            2 => Ok(EnumType::C { a: u32::decode(input)?, b: u64::decode(input)? }),
            _ => Err("No such variant in enum EnumType".into()),
        }
    }
}

#[derive(Debug, PartialEq)]
enum EnumWithDiscriminant {
    A,
    B,
    C,
}

impl Encode for EnumWithDiscriminant {
    fn encode_to<W: Output>(&self, dest: &mut W) {
        match self {
            EnumWithDiscriminant::A => dest.push_byte(1),
            EnumWithDiscriminant::B => dest.push_byte(15),
            EnumWithDiscriminant::C => dest.push_byte(255),
        }
    }
}

impl Decode for EnumWithDiscriminant {
    fn decode<I: Input>(input: &mut I) -> Result<Self, Error> {
        match input.read_byte()? {
            1 => Ok(EnumWithDiscriminant::A),
            15 => Ok(EnumWithDiscriminant::B),
            255 => Ok(EnumWithDiscriminant::C),
            _ => Err("No such variant in enum EnumWithDiscriminant".into()),
        }
    }
}

#[derive(Debug, PartialEq)]
struct TestHasCompact<T: HasCompact> {
    bar: T,
}

impl Encode for TestHasCompact<u64> {
    fn encode_to<W: Output>(&self, dest: &mut W) {
        Compact(self.bar).encode_to(dest);
    }
}

impl Decode for TestHasCompact<u64> {
    fn decode<I: Input>(input: &mut I) -> Result<Self, Error> {
        Ok(TestHasCompact { bar: <u64 as HasCompact>::Type::decode(input)?.0 })
    }
}

#[derive(Debug, PartialEq)]
struct TestCompactHasCompact<T: HasCompact> {
    bar: T,
}

impl Decode for TestCompactHasCompact<u64> {
    fn decode<I: Input>(input: &mut I) -> Result<Self, Error> {
        Ok(TestCompactHasCompact { bar: Compact::<u64>::decode(input)?.0 })
    }
}

impl Encode for TestCompactHasCompact<u64> {
    fn encode_to<W: Output>(&self, dest: &mut W) {
        Compact(self.bar).encode_to(dest);
    }
}

#[derive(Debug, PartialEq)]
enum TestHasCompactEnum<T: HasCompact> {
    Unnamed(T),
    Named { bar: T },
    UnnamedCompact(T),
    NamedCompact { bar: T },
}

impl Encode for TestHasCompactEnum<u64> {
    fn encode_to<W: Output>(&self, dest: &mut W) {
        match self {
            TestHasCompactEnum::Unnamed(n) => {
                dest.push_byte(0);
                Compact(*n).encode_to(dest);
            },
            TestHasCompactEnum::Named { bar } => {
                dest.push_byte(1);
                Compact(*bar).encode_to(dest);
            },
            TestHasCompactEnum::UnnamedCompact(n) => {
                dest.push_byte(2);
                Compact(*n).encode_to(dest);
            },
            TestHasCompactEnum::NamedCompact { bar } => {
                dest.push_byte(3);
                Compact(*bar).encode_to(dest);
            },
        }
    }
}

impl Decode for TestHasCompactEnum<u64> {
    fn decode<I: Input>(input: &mut I) -> Result<Self, Error> {
        let tag = input.read_byte()?;
        let n = Compact::<u64>::decode(input)?.0;
        match tag {
            0 => Ok(TestHasCompactEnum::Unnamed(n)),
            1 => Ok(TestHasCompactEnum::Named { bar: n }),
            2 => Ok(TestHasCompactEnum::UnnamedCompact(n)),
            3 => Ok(TestHasCompactEnum::NamedCompact { bar: n }),
            _ => Err("No such variant in enum TestHasCompactEnum".into()),
        }
    }
}

#[derive(Debug, PartialEq)]
struct TestCompactAttribute {
    bar: u64,
}

impl Encode for TestCompactAttribute {
    fn encode_to<W: Output>(&self, dest: &mut W) {
        Compact(self.bar).encode_to(dest);
    }
}

impl Decode for TestCompactAttribute {
    fn decode<I: Input>(input: &mut I) -> Result<Self, Error> {
        Ok(TestCompactAttribute { bar: Compact::<u64>::decode(input)?.0 })
    }
}

#[derive(Debug, PartialEq)]
enum TestCompactAttributeEnum {
    Unnamed(u64),
    Named { bar: u64 },
}

impl Encode for TestCompactAttributeEnum {
    fn encode_to<W: Output>(&self, dest: &mut W) {
        match self {
            TestCompactAttributeEnum::Unnamed(n) => {
                dest.push_byte(0);
                Compact(*n).encode_to(dest);
            },
            TestCompactAttributeEnum::Named { bar } => {
                dest.push_byte(1);
                Compact(*bar).encode_to(dest);
            },
        }
    }
}

impl Decode for TestCompactAttributeEnum {
    fn decode<I: Input>(input: &mut I) -> Result<Self, Error> {
        let tag = input.read_byte()?;
        let n = Compact::<u64>::decode(input)?.0;
        match tag {
            0 => Ok(TestCompactAttributeEnum::Unnamed(n)),
            1 => Ok(TestCompactAttributeEnum::Named { bar: n }),
            _ => Err("No such variant in enum TestCompactAttributeEnum".into()),
        }
    }
}

#[test]
fn should_work_for_simple_enum() {
    let a = EnumType::A;
    let b = EnumType::B(1, 2);
    let c = EnumType::C { a: 1, b: 2 };

    a.using_encoded(|ref slice| {
        assert_eq!(slice, &b"\x0f");
    });
    b.using_encoded(|ref slice| {
        assert_eq!(slice, &b"\x01\x01\0\0\0\x02\0\0\0\0\0\0\0");
    });
    c.using_encoded(|ref slice| {
        assert_eq!(slice, &b"\x02\x01\0\0\0\x02\0\0\0\0\0\0\0");
    });

    let mut da: &[u8] = b"\x0f";
    assert_eq!(EnumType::decode(&mut da).ok(), Some(a));
    let mut db: &[u8] = b"\x01\x01\0\0\0\x02\0\0\0\0\0\0\0";
    assert_eq!(EnumType::decode(&mut db).ok(), Some(b));
    let mut dc: &[u8] = b"\x02\x01\0\0\0\x02\0\0\0\0\0\0\0";
    assert_eq!(EnumType::decode(&mut dc).ok(), Some(c));
    let mut dz: &[u8] = &[0];
    assert_eq!(EnumType::decode(&mut dz).ok(), None);
}

#[test]
fn should_work_for_enum_with_discriminant() {
    EnumWithDiscriminant::A.using_encoded(|ref slice| {
        assert_eq!(slice, &[1]);
    });
    EnumWithDiscriminant::B.using_encoded(|ref slice| {
        assert_eq!(slice, &[15]);
    });
    EnumWithDiscriminant::C.using_encoded(|ref slice| {
        assert_eq!(slice, &[255]);
    });

    let mut da: &[u8] = &[1];
    assert_eq!(EnumWithDiscriminant::decode(&mut da).ok(), Some(EnumWithDiscriminant::A));
    let mut db: &[u8] = &[15];
    assert_eq!(EnumWithDiscriminant::decode(&mut db).ok(), Some(EnumWithDiscriminant::B));
    let mut dc: &[u8] = &[255];
    assert_eq!(EnumWithDiscriminant::decode(&mut dc).ok(), Some(EnumWithDiscriminant::C));
    let mut dz: &[u8] = &[2];
    assert_eq!(EnumWithDiscriminant::decode(&mut dz).ok(), None);
}

#[test]
fn should_derive_encode() {
    let v = TestType::new(15, 9, b"Hello world".to_vec());

    v.using_encoded(|ref slice| assert_eq!(slice, &b"\x0f\0\0\0\x09\0\0\0\0\0\0\0\x2cHello world"));
}

#[test]
fn should_derive_decode() {
    let slice = b"\x0f\0\0\0\x09\0\0\0\0\0\0\0\x2cHello world".to_vec();

    let v = TestType::decode(&mut &*slice);

    assert_eq!(v.ok(), Some(TestType::new(15, 9, b"Hello world".to_vec())));
}

#[test]
fn should_work_for_unit() {
    let v = Unit;

    v.using_encoded(|ref slice| {
        assert_eq!(slice, &[]);
    });

    let mut a: &[u8] = &[];
    assert_eq!(Unit::decode(&mut a).ok(), Some(Unit));
}

#[test]
fn should_work_for_indexed() {
    let v = Indexed(1, 2);

    v.using_encoded(|ref slice| assert_eq!(slice, &b"\x01\0\0\0\x02\0\0\0\0\0\0\0"));

    let mut v: &[u8] = b"\x01\0\0\0\x02\0\0\0\0\0\0\0";
    assert_eq!(Indexed::decode(&mut v).ok(), Some(Indexed(1, 2)));
}

const U64_TEST_COMPACT_VALUES: &[(u64, usize)] = &[
    (0u64, 1usize),
    (63, 1),
    (64, 2),
    (16383, 2),
    (16384, 4),
    (1073741823, 4),
    (1073741824, 5),
    (1 << 32 - 1, 5),
    (1 << 32, 6),
    (1 << 40, 7),
    (1 << 48, 8),
    (1 << 56 - 1, 8),
    (1 << 56, 9),
    (u64::max_value(), 9),
];

const U64_TEST_COMPACT_VALUES_FOR_ENUM: &[(u64, usize)] = &[
    (0u64, 2usize),
    (63, 2),
    (64, 3),
    (16383, 3),
    (16384, 5),
    (1073741823, 5),
    (1073741824, 6),
    (1 << 32 - 1, 6),
    (1 << 32, 7),
    (1 << 40, 8),
    (1 << 48, 9),
    (1 << 56 - 1, 9),
    (1 << 56, 10),
    (u64::max_value(), 10),
];

#[test]
fn encoded_as_with_has_compact_works() {
    for &(n, l) in U64_TEST_COMPACT_VALUES {
        let encoded = TestHasCompact { bar: n }.encode();
        println!("{}", n);
        assert_eq!(encoded.len(), l);
        assert_eq!(<TestHasCompact<u64>>::decode(&mut &encoded[..]).unwrap().bar, n);
    }
}

#[test]
fn compact_with_has_compact_works() {
    for &(n, l) in U64_TEST_COMPACT_VALUES {
        let encoded = TestHasCompact { bar: n }.encode();
        println!("{}", n);
        assert_eq!(encoded.len(), l);
        assert_eq!(<TestCompactHasCompact<u64>>::decode(&mut &encoded[..]).unwrap().bar, n);
    }
}

#[test]
fn enum_compact_and_encoded_as_with_has_compact_works() {
    for &(n, l) in U64_TEST_COMPACT_VALUES_FOR_ENUM {
        for value in [
            TestHasCompactEnum::Unnamed(n),
            TestHasCompactEnum::Named { bar: n },
            TestHasCompactEnum::UnnamedCompact(n),
            TestHasCompactEnum::NamedCompact { bar: n },
        ]
        .iter()
        {
            let encoded = value.encode();
            println!("{:?}", value);
            assert_eq!(encoded.len(), l);
            assert_eq!(&<TestHasCompactEnum<u64>>::decode(&mut &encoded[..]).unwrap(), value);
        }
    }
}

#[test]
fn compact_meta_attribute_works() {
    for &(n, l) in U64_TEST_COMPACT_VALUES {
        let encoded = TestCompactAttribute { bar: n }.encode();
        assert_eq!(encoded.len(), l);
        assert_eq!(TestCompactAttribute::decode(&mut &encoded[..]).unwrap().bar, n);
    }
}

#[test]
fn enum_compact_meta_attribute_works() {
    for &(n, l) in U64_TEST_COMPACT_VALUES_FOR_ENUM {
        for value in
            [TestCompactAttributeEnum::Unnamed(n), TestCompactAttributeEnum::Named { bar: n }]
                .iter()
        {
            let encoded = value.encode();
            assert_eq!(encoded.len(), l);
            assert_eq!(&TestCompactAttributeEnum::decode(&mut &encoded[..]).unwrap(), value);
        }
    }
}
