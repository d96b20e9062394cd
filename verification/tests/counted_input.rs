use parity_scale_codec::{Count, CountedInput, Error, Input};

#[test]
fn test_counted_input_input_impl() {
    let mut input = &[1u8, 2, 3, 4, 5][..];
    let mut counted_input = CountedInput::new(&mut input);

    assert_eq!(counted_input.remaining_len().unwrap(), Some(5));
    assert_eq!(counted_input.count(), Count::Exact(0));

    counted_input.read_byte().unwrap();

    assert_eq!(counted_input.remaining_len().unwrap(), Some(4));
    assert_eq!(counted_input.count(), Count::Exact(1));

    counted_input.read(&mut [0u8; 2][..]).unwrap();

    assert_eq!(counted_input.remaining_len().unwrap(), Some(2));
    assert_eq!(counted_input.count(), Count::Exact(3));

    counted_input.ascend_ref();
    counted_input.descend_ref().unwrap();

    counted_input.read(&mut [0u8; 2][..]).unwrap();

    assert_eq!(counted_input.remaining_len().unwrap(), Some(0));
    assert_eq!(counted_input.count(), Count::Exact(5));

    assert_eq!(counted_input.read_byte(), Err("Not enough data to fill buffer".into()));

    assert_eq!(counted_input.remaining_len().unwrap(), Some(0));
    assert_eq!(counted_input.count(), Count::Exact(5));

    assert_eq!(
        counted_input.read(&mut [0u8; 2][..]),
        Err("Not enough data to fill buffer".into())
    );

    assert_eq!(counted_input.remaining_len().unwrap(), Some(0));
    assert_eq!(counted_input.count(), Count::Exact(5));
}

struct BigInput;
impl Input for BigInput {
    fn remaining_len(&mut self) -> Result<Option<usize>, Error> {
        Ok(None)
    }

    fn read(&mut self, _into: &mut [u8]) -> Result<(), Error> {
        Ok(())
    }

    fn read_byte(&mut self) -> Result<u8, Error> {
        Ok(0)
    }

    fn ascend_ref(&mut self) {}

    fn descend_ref(&mut self) -> Result<(), Error> {
        Ok(())
    }

    fn try_alloc(&mut self, _size: usize) -> Result<(), Error> {
        Ok(())
    }
}

#[test]
fn test_counted_input_max_count() {
    let max = u32::MAX - 1; // 2^32 - 2

    let mut input = BigInput;
    let mut counted_input = CountedInput::new(&mut input);

    assert_eq!(counted_input.count(), Count::Exact(0));

    // Test will read continuously into this page.
    let page_size = 1024 * 1024; // 1 MB
    let mut page = vec![0u8; page_size];

    // Calculate the number of full pages and the remaining bytes
    let total_bytes = max as usize;
    let full_pages = total_bytes / page_size;
    let remaining_bytes = total_bytes % page_size;

    // Read full pages
    for _ in 0..full_pages {
        counted_input.read(&mut page[..]).unwrap();
    }

    // Read remaining bytes
    if remaining_bytes > 0 {
        counted_input.read(&mut page[..remaining_bytes]).unwrap();
    }

    // Max is reached exactly
    assert_eq!(counted_input.count(), Count::Exact(max));

    // Perform one additional read
    counted_input.read_byte().unwrap();

    // Count is more than max.
    assert_eq!(counted_input.count(), Count::MaxCountReached);

    // Perform one additional read
    counted_input.read_byte().unwrap();

    // Count is still more than max.
    assert_eq!(counted_input.count(), Count::MaxCountReached);
}

#[test]
fn remaining_length_is_passed_through() {
    let mut bytes: &[u8] = &[1, 2, 3];
    assert_eq!(bytes.remaining_len(), Ok(Some(3)));
    let mut counted = CountedInput::new(&mut bytes);
    assert_eq!(counted.remaining_len(), Ok(Some(3)));
    assert_eq!(counted.read_byte(), Ok(1));
    assert_eq!(counted.remaining_len(), Ok(Some(2)));
}
